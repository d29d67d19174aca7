//! Types that describe tape drives.
use vstd::prelude::*;
use vstd::string::*;

verus! {

/// Simulated tape drive, for tests and debugging.
pub struct VirtualTapeDrive {
    pub name: String,
    /// Path to a directory
    pub path: String,
    /// Virtual tape size
    pub max_size: Option<usize>,
}

/// Linux SCSI tape drive.
pub struct LinuxTapeDrive {
    pub name: String,
    pub path: String,
    pub changer: Option<String>,
    pub changer_drivenum: Option<u64>,
}

/// Medium auxiliary memory attribute.
pub struct MamAttribute {
    /// Attribute id
    pub id: u16,
    /// Attribute name
    pub name: String,
    /// Attribute value
    pub value: String,
}

/// Tape density, as LTO generations name it.
#[derive(Copy, Clone, Debug, PartialEq, Eq, Structural)]
pub enum TapeDensity {
    LTO1,
    LTO2,
    LTO3,
    LTO4,
    LTO5,
    LTO6,
    LTO7,
    LTO7M8,
    LTO8,
}

/// The density that a drive reports with the density code `code`, if it is known.
pub open spec fn density_of(code: u8) -> Option<TapeDensity> {
    if code == 0x40 {
        Some(TapeDensity::LTO1)
    } else if code == 0x42 {
        Some(TapeDensity::LTO2)
    } else if code == 0x44 {
        Some(TapeDensity::LTO3)
    } else if code == 0x46 {
        Some(TapeDensity::LTO4)
    } else if code == 0x58 {
        Some(TapeDensity::LTO5)
    } else if code == 0x5a {
        Some(TapeDensity::LTO6)
    } else if code == 0x5c {
        Some(TapeDensity::LTO7)
    } else if code == 0x5d {
        Some(TapeDensity::LTO7M8)
    } else if code == 0x5e {
        Some(TapeDensity::LTO8)
    } else {
        None
    }
}

/// A density code that names no known density.
#[derive(Copy, Clone, Debug, PartialEq, Eq, Structural)]
pub struct UnknownDensityCode {
    pub code: u8,
}

/// Lower-case hexadecimal digit of `d` (below 16).
pub open spec fn hex_digit(d: u8) -> char {
    if d < 10 {
        ('0' as u8 + d) as char
    } else {
        ('a' as u8 + d - 10) as char
    }
}

impl UnknownDensityCode {
    /// The text of the error.
    pub open spec fn text(&self) -> Seq<char> {
        "unknown tape density code 0x"@ + seq![hex_digit(self.code / 16), hex_digit(self.code % 16)]
    }

    /// The text of the error.
    pub fn message(&self) -> (r: String)
        ensures
            r@ == self.text(),
    {
        let mut out = String::from_str("unknown tape density code 0x");
        out.append(hex_str(self.code / 16));
        out.append(hex_str(self.code % 16));
        proof {
            assert(out@ =~= self.text());
        }
        out
    }
}

fn hex_str(d: u8) -> (r: &'static str)
    requires
        d < 16,
    ensures
        r@ == seq![hex_digit(d)],
{
    let r = match d {
        0 => "0",
        1 => "1",
        2 => "2",
        3 => "3",
        4 => "4",
        5 => "5",
        6 => "6",
        7 => "7",
        8 => "8",
        9 => "9",
        10 => "a",
        11 => "b",
        12 => "c",
        13 => "d",
        14 => "e",
        _ => "f",
    };
    proof {
        reveal_strlit("0");
        reveal_strlit("1");
        reveal_strlit("2");
        reveal_strlit("3");
        reveal_strlit("4");
        reveal_strlit("5");
        reveal_strlit("6");
        reveal_strlit("7");
        reveal_strlit("8");
        reveal_strlit("9");
        reveal_strlit("a");
        reveal_strlit("b");
        reveal_strlit("c");
        reveal_strlit("d");
        reveal_strlit("e");
        reveal_strlit("f");
    }
    r
}

impl TapeDensity {
    /// The density for a density code; an unknown code is an error.
    pub fn try_from(value: u8) -> (r: Result<TapeDensity, UnknownDensityCode>)
        ensures
            density_of(value) is Some ==> r == Ok::<TapeDensity, UnknownDensityCode>(
                density_of(value)->Some_0,
            ),
            density_of(value) is None ==> r == Err::<TapeDensity, UnknownDensityCode>(
                (UnknownDensityCode { code: value }),
            ),
    {
        let density = match value {
            0x40 => TapeDensity::LTO1,
            0x42 => TapeDensity::LTO2,
            0x44 => TapeDensity::LTO3,
            0x46 => TapeDensity::LTO4,
            0x58 => TapeDensity::LTO5,
            0x5a => TapeDensity::LTO6,
            0x5c => TapeDensity::LTO7,
            0x5d => TapeDensity::LTO7M8,
            0x5e => TapeDensity::LTO8,
            _ => return Err(UnknownDensityCode { code: value }),
        };
        Ok(density)
    }
}

} // verus!
