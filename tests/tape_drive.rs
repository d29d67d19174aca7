use backup_ingest::tape_drive::{
    LinuxTapeDrive, MamAttribute, TapeDensity, UnknownDensityCode, VirtualTapeDrive,
};

#[test]
fn density_codes() {
    let known = [
        (0x40, TapeDensity::LTO1),
        (0x42, TapeDensity::LTO2),
        (0x44, TapeDensity::LTO3),
        (0x46, TapeDensity::LTO4),
        (0x58, TapeDensity::LTO5),
        (0x5a, TapeDensity::LTO6),
        (0x5c, TapeDensity::LTO7),
        (0x5d, TapeDensity::LTO7M8),
        (0x5e, TapeDensity::LTO8),
    ];
    for (code, density) in known {
        assert_eq!(TapeDensity::try_from(code), Ok(density));
    }
}

#[test]
fn unknown_density_code() {
    assert_eq!(TapeDensity::try_from(0x41), Err(UnknownDensityCode { code: 0x41 }));
    assert_eq!(
        UnknownDensityCode { code: 0x41 }.message(),
        "unknown tape density code 0x41"
    );
    assert_eq!(
        UnknownDensityCode { code: 0x0f }.message(),
        "unknown tape density code 0x0f"
    );
    assert_eq!(
        UnknownDensityCode { code: 0xea }.message(),
        "unknown tape density code 0xea"
    );
}

#[test]
fn drive_descriptions() {
    let v = VirtualTapeDrive { name: "vt1".to_string(), path: "/tmp/vt".to_string(), max_size: Some(1024) };
    assert_eq!(v.max_size, Some(1024));
    let l = LinuxTapeDrive {
        name: "lto".to_string(),
        path: "/dev/nst0".to_string(),
        changer: None,
        changer_drivenum: Some(0),
    };
    assert_eq!(l.path, "/dev/nst0");
    let m = MamAttribute { id: 0x0400, name: "Manufacturer".to_string(), value: "ACME".to_string() };
    assert_eq!(m.id, 0x0400);
}
