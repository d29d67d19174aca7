//! Sliding-window chunker: a buzhash over the last bytes of the current
//! chunk decides where a byte stream is cut.
use vstd::prelude::*;
use vstd::arithmetic::div_mod::{lemma_div_is_ordered, lemma_div_is_ordered_by_denominator};

use crate::stream::{feed, shift};
use crate::buzhash::{
    WINDOW_SIZE, hash, seed_fold, table, entry, rotate_left, lemma_seed_fold_is_hash, lemma_roll,
};

verus! {

/// Largest average chunk size accepted. Up to it the integer form of the
/// discriminator below agrees with the floating-point fit it stands for.
pub const MAX_CHUNK_SIZE_AVG: usize = 8 * 1024 * 1024;

// The discriminator is `avg / (1.33237515 - 1.42888852e-7 * avg)`, truncated;
// these are its two coefficients scaled by `FIT_SCALE`, so that it is computed
// exactly in integers.
pub const FIT_SCALE: u128 = 1_000_000_000_000_000;
pub const FIT_BASE: u128 = 1_332_375_150_000_000;
pub const FIT_SLOPE: u128 = 142_888_852;

/// The cut discriminator for an average chunk size `avg`: an empirical fit
/// that keeps the real average close to `avg` given the size bounds.
pub open spec fn discriminator_of(avg: nat) -> nat {
    ((avg * FIT_SCALE) / (FIT_BASE - FIT_SLOPE * avg)) as nat
}

/// Smallest size of a chunk whose end the hash decides.
pub open spec fn min_size(avg: nat) -> nat {
    avg / 4
}

/// Size at which a chunk is cut whatever the hash says.
pub open spec fn max_size(avg: nat) -> nat {
    avg * 4
}

/// Whether a chunk whose bytes so far are `c` ends after its last byte.
/// The hash is taken over the last `WINDOW_SIZE` bytes; no cut is made
/// before the window has been filled and rolled at least once.
pub open spec fn is_boundary(avg: nat, c: Seq<u8>) -> bool {
    let n = c.len();
    let d = discriminator_of(avg);
    &&& n > WINDOW_SIZE
    &&& (n >= max_size(avg) || (n >= min_size(avg) && (hash(
        c.subrange(n - WINDOW_SIZE, n as int),
    ) as nat) % d == d - 1))
}

/// Where the first boundary falls in `data` when it follows the bytes `p` of
/// the current chunk: its 1-based position within `data`, or 0 for none.
pub open spec fn cut_in(avg: nat, p: Seq<u8>, data: Seq<u8>) -> nat
    decreases data.len(),
{
    if data.len() == 0 {
        0
    } else {
        let c = cut_in(avg, p, data.drop_last());
        if c > 0 {
            c
        } else if is_boundary(avg, p + data) {
            data.len()
        } else {
            0
        }
    }
}

/// A found boundary lies within `data`.
pub proof fn lemma_cut_in_bound(avg: nat, p: Seq<u8>, data: Seq<u8>)
    ensures
        cut_in(avg, p, data) <= data.len(),
    decreases data.len(),
{
    if data.len() > 0 {
        lemma_cut_in_bound(avg, p, data.drop_last());
    }
}

/// Feeding `a + b` finds the boundary of `a`, or else the one of `b` after `p + a`.
pub proof fn lemma_cut_in_append(avg: nat, p: Seq<u8>, a: Seq<u8>, b: Seq<u8>)
    ensures
        cut_in(avg, p, a + b) == if cut_in(avg, p, a) > 0 {
            cut_in(avg, p, a)
        } else if cut_in(avg, p + a, b) > 0 {
            a.len() + cut_in(avg, p + a, b)
        } else {
            0
        },
    decreases b.len(),
{
    if b.len() == 0 {
        assert(a + b =~= a);
    } else {
        let b1 = b.drop_last();
        lemma_cut_in_append(avg, p, a, b1);
        assert((a + b).drop_last() =~= a + b1);
        assert(p + (a + b) =~= (p + a) + b);
    }
}

/// One more byte of `data` either completes the first boundary or keeps it absent.
proof fn lemma_cut_in_step(avg: nat, p: Seq<u8>, data: Seq<u8>, pos: int)
    requires
        0 < pos <= data.len(),
        cut_in(avg, p, data.subrange(0, pos - 1)) == 0,
    ensures
        cut_in(avg, p, data.subrange(0, pos)) == if is_boundary(avg, p + data.subrange(0, pos)) {
            pos as nat
        } else {
            0
        },
{
    assert(data.subrange(0, pos).drop_last() =~= data.subrange(0, pos - 1));
}

/// A chunk without a boundary that grows by one byte.
proof fn lemma_open_chunk_push(avg: nat, p: Seq<u8>, b: u8)
    requires
        cut_in(avg, Seq::empty(), p) == 0,
    ensures
        cut_in(avg, Seq::empty(), p.push(b)) == if is_boundary(avg, p.push(b)) {
            p.len() + 1
        } else {
            0
        },
{
    assert(p.push(b).drop_last() =~= p);
    assert(Seq::<u8>::empty() + p.push(b) =~= p.push(b));
}

/// The first boundary in a prefix of `data` is the first one in `data`.
proof fn lemma_cut_in_prefix(avg: nat, p: Seq<u8>, data: Seq<u8>, pos: int)
    requires
        0 <= pos <= data.len(),
        cut_in(avg, p, data.subrange(0, pos)) > 0,
    ensures
        cut_in(avg, p, data) == cut_in(avg, p, data.subrange(0, pos)),
{
    assert(data =~= data.subrange(0, pos) + data.subrange(pos, data.len() as int));
    lemma_cut_in_append(avg, p, data.subrange(0, pos), data.subrange(pos, data.len() as int));
}

/// The window buffer `w` holds the last `WINDOW_SIZE` bytes of `p` (all of them
/// while there are fewer), byte `j` at `j % WINDOW_SIZE`.
spec fn window_holds(w: Seq<u8>, p: Seq<u8>) -> bool {
    &&& w.len() == WINDOW_SIZE
    &&& forall|j: int|
        0 <= j < p.len() && p.len() - WINDOW_SIZE <= j ==> w[j % (WINDOW_SIZE as int)]
            == #[trigger] p[j]
}

proof fn lemma_window_push(w: Seq<u8>, p: Seq<u8>, b: u8)
    requires
        window_holds(w, p),
    ensures
        window_holds(w.update((p.len() as int) % (WINDOW_SIZE as int), b), p.push(b)),
        p.len() >= WINDOW_SIZE ==> w[(p.len() as int) % (WINDOW_SIZE as int)] == p[p.len() - WINDOW_SIZE],
{
    let q = p.push(b);
    let w2 = w.update((p.len() as int) % (WINDOW_SIZE as int), b);
    assert forall|j: int| 0 <= j < q.len() && q.len() - WINDOW_SIZE <= j implies w2[j % (
    WINDOW_SIZE as int)] == #[trigger] q[j] by {
        if j < p.len() {
            assert(p[j] == q[j]);
        }
    }
    if p.len() >= WINDOW_SIZE {
        let j = p.len() - WINDOW_SIZE;
        assert(p[j] == w[j % (WINDOW_SIZE as int)]);
    }
}

/// The window buffer of a just-filled window is the window itself.
proof fn lemma_window_full(w: Seq<u8>, p: Seq<u8>)
    requires
        window_holds(w, p),
        p.len() == WINDOW_SIZE,
    ensures
        w =~= p,
{
    assert forall|j: int| 0 <= j < WINDOW_SIZE implies w[j] == p[j] by {
        assert(p[j] == w[j % (WINDOW_SIZE as int)]);
    }
}

/// Without a boundary in `p`, a chunk longer than the window is below the maximum size.
proof fn lemma_open_chunk_below_max(avg: nat, p: Seq<u8>)
    requires
        cut_in(avg, Seq::empty(), p) == 0,
        p.len() > WINDOW_SIZE,
    ensures
        p.len() < max_size(avg),
{
    assert(Seq::<u8>::empty() + p =~= p);
}

proof fn lemma_discriminator_bounds(avg: nat)
    requires
        avg <= MAX_CHUNK_SIZE_AVG,
    ensures
        0 < FIT_BASE - FIT_SLOPE * avg,
        discriminator_of(avg) < 0x1_0000_0000,
        avg >= 2 ==> discriminator_of(avg) >= 1,
{
    let num = avg * 1_000_000_000_000_000int;
    let den = 1_332_375_150_000_000int - 142_888_852int * avg;
    assert(142_888_852int * avg <= 142_888_852int * 8388608) by (nonlinear_arith)
        requires
            avg <= 8388608,
    ;
    assert(num <= 8388608int * 1_000_000_000_000_000int) by (nonlinear_arith)
        requires
            avg <= 8388608,
            num == avg * 1_000_000_000_000_000int,
    ;
    let dmin = 133736583001984int;
    lemma_div_is_ordered_by_denominator(num, dmin, den);
    lemma_div_is_ordered(num, 8388608int * 1_000_000_000_000_000int, dmin);
    assert(8388608int * 1_000_000_000_000_000int / dmin == 62724856);
    if avg >= 2 {
        lemma_div_is_ordered(den, num, den);
        assert(den / den == 1) by (nonlinear_arith)
            requires
                den > 0,
        ;
    }
}

/// Streaming chunker state. It holds the bytes of the current chunk only
/// through the hash window; `current` is their record for the proofs.
pub struct Chunker {
    h: u32,
    window_size: usize,
    chunk_size: usize,
    chunk_size_min: usize,
    chunk_size_max: usize,
    chunk_size_avg: usize,
    discriminator: u32,
    window: [u8; WINDOW_SIZE],
    offset: usize,
    last_offset: usize,
    current: Ghost<Seq<u8>>,
}

impl Chunker {
    /// The configured average chunk size.
    pub closed spec fn avg(&self) -> nat {
        self.chunk_size_avg as nat
    }

    /// The bytes consumed since the last boundary.
    pub closed spec fn current(&self) -> Seq<u8> {
        self.current@
    }

    /// Number of bytes consumed through `write`.
    pub closed spec fn stream_offset(&self) -> nat {
        self.offset as nat
    }

    /// Stream offset of the last boundary reported by `write`.
    pub closed spec fn last_boundary(&self) -> nat {
        self.last_offset as nat
    }

    /// The fields agree with `current`, except for the hash and the absence of a boundary.
    closed spec fn inv_fields(&self) -> bool {
        let p = self.current@;
        let n = p.len();
        &&& self.chunk_size_avg <= MAX_CHUNK_SIZE_AVG
        &&& self.chunk_size_min == self.chunk_size_avg / 4
        &&& self.chunk_size_max == self.chunk_size_avg * 4
        &&& self.discriminator as nat == discriminator_of(self.chunk_size_avg as nat)
        &&& self.chunk_size == n
        &&& self.window_size == if n < WINDOW_SIZE {
            n
        } else {
            WINDOW_SIZE as nat
        }
        &&& window_holds(self.window@, p)
        &&& self.last_offset <= self.offset
    }

    /// The fields agree with `current`, except for the absence of a boundary.
    closed spec fn inv(&self) -> bool {
        let p = self.current@;
        let n = p.len();
        &&& self.inv_fields()
        &&& n < WINDOW_SIZE ==> self.h == 0
        &&& n >= WINDOW_SIZE ==> self.h == hash(p.subrange(n - WINDOW_SIZE, n as int))
    }

    /// Well-formed: the fields agree with `current`, which holds no boundary.
    pub closed spec fn wf(&self) -> bool {
        &&& self.inv()
        &&& cut_in(self.avg(), Seq::empty(), self.current@) == 0
    }

    /// A chunker for the average chunk size `chunk_size_avg`; chunks are then
    /// at least a quarter and at most four times that long.
    pub fn new(chunk_size_avg: usize) -> (r: Self)
        requires
            chunk_size_avg <= MAX_CHUNK_SIZE_AVG,
        ensures
            r.wf(),
            r.avg() == chunk_size_avg,
            r.current() == Seq::<u8>::empty(),
            r.stream_offset() == 0,
            r.last_boundary() == 0,
    {
        let discriminator = compute_discriminator(chunk_size_avg);
        Chunker {
            h: 0,
            window_size: 0,
            chunk_size: 0,
            chunk_size_min: chunk_size_avg / 4,
            chunk_size_max: chunk_size_avg * 4,
            chunk_size_avg,
            discriminator,
            window: [0u8; WINDOW_SIZE],
            offset: 0,
            last_offset: 0,
            current: Ghost(Seq::empty()),
        }
    }

    /// Scans `data` for a chunk boundary. Returns its 1-based position within
    /// `data`, after which the next chunk starts empty; or 0 when `data` holds
    /// none, in which case all of `data` is part of the current chunk and the
    /// caller goes on with more data later.
    pub fn scan(&mut self, data: &[u8]) -> (r: usize)
        requires
            old(self).wf(),
        ensures
            final(self).wf(),
            final(self).avg() == old(self).avg(),
            final(self).stream_offset() == old(self).stream_offset(),
            final(self).last_boundary() == old(self).last_boundary(),
            r == cut_in(old(self).avg(), old(self).current(), data@),
            r <= data.len(),
            r == 0 ==> final(self).current() == old(self).current() + data@,
            r > 0 ==> final(self).current() == Seq::<u8>::empty(),
    {
        let ghost avg = old(self).avg();
        let ghost p0 = old(self).current@;
        let data_len = data.len();
        let mut pos: usize = 0;
        proof {
            assert(data@.subrange(0, 0) =~= Seq::<u8>::empty());
            assert(p0 + data@.subrange(0, 0) =~= p0);
            lemma_cut_in_bound(avg, p0, data@);
        }
        if self.window_size < WINDOW_SIZE {
            while self.window_size < WINDOW_SIZE && pos < data_len
                invariant
                    self.inv_fields(),
                    self.h == 0,
                    self.avg() == avg,
                    self.offset == old(self).offset,
                    self.last_offset == old(self).last_offset,
                    pos <= data_len,
                    data_len == data@.len(),
                    self.current@.len() <= WINDOW_SIZE,
                    self.current@ == p0 + data@.subrange(0, pos as int),
                    cut_in(avg, p0, data@.subrange(0, pos as int)) == 0,
                    cut_in(avg, Seq::empty(), self.current@) == 0,
                decreases data_len - pos,
            {
                let b = data[pos];
                let ghost p = self.current@;
                self.fill(b);
                pos = pos + 1;
                proof {
                    assert(data@.subrange(0, pos as int) =~= data@.subrange(0, pos - 1).push(b));
                    assert(self.current@ =~= p0 + data@.subrange(0, pos as int));
                    lemma_cut_in_step(avg, p0, data@, pos as int);
                    lemma_open_chunk_push(avg, p, b);
                }
            }
            if self.window_size < WINDOW_SIZE {
                proof {
                    assert(data@.subrange(0, pos as int) =~= data@);
                }
                return 0;
            }
            proof {
                lemma_window_full(self.window@, self.current@);
                assert(self.current@.subrange(0, WINDOW_SIZE as int) =~= self.current@);
            }
            self.start();
        }
        while pos < data_len
            invariant
                self.inv(),
                self.avg() == avg,
                avg == old(self).avg(),
                p0 == old(self).current@,
                self.offset == old(self).offset,
                self.last_offset == old(self).last_offset,
                pos <= data_len,
                data_len == data@.len(),
                self.current@.len() >= WINDOW_SIZE,
                self.current@ == p0 + data@.subrange(0, pos as int),
                cut_in(avg, p0, data@.subrange(0, pos as int)) == 0,
                cut_in(avg, Seq::empty(), self.current@) == 0,
            decreases data_len - pos,
        {
            let enter = data[pos];
            let ghost p = self.current@;
            self.roll(enter);
            pos = pos + 1;
            proof {
                assert(data@.subrange(0, pos as int) =~= data@.subrange(0, pos - 1).push(enter));
                assert(self.current@ =~= p0 + data@.subrange(0, pos as int));
                lemma_cut_in_step(avg, p0, data@, pos as int);
                lemma_open_chunk_push(avg, p, enter);
            }
            if self.shall_break() {
                self.h = 0;
                self.chunk_size = 0;
                self.window_size = 0;
                self.current = Ghost(Seq::empty());
                proof {
                    lemma_cut_in_prefix(avg, p0, data@, pos as int);
                }
                return pos;
            }
        }
        proof {
            assert(data@.subrange(0, pos as int) =~= data@);
        }
        0
    }

    /// Scans all of `data`, scanning again right after each boundary, and
    /// returns the boundaries found as offsets into `data`, each the end of a
    /// chunk. Bytes after the last one stay in the current chunk.
    pub fn boundaries(&mut self, data: &[u8]) -> (r: Vec<usize>)
        requires
            old(self).wf(),
        ensures
            final(self).wf(),
            final(self).avg() == old(self).avg(),
            final(self).stream_offset() == old(self).stream_offset(),
            final(self).last_boundary() == old(self).last_boundary(),
            r@.map_values(|x: usize| x as nat) == feed(old(self).avg(), old(self).current(), data@).0,
            final(self).current() == feed(old(self).avg(), old(self).current(), data@).1,
    {
        let ghost avg = old(self).avg();
        let ghost whole = feed(avg, old(self).current(), data@);
        let mut out: Vec<usize> = Vec::new();
        let mut pos: usize = 0;
        proof {
            assert(data@.subrange(0, data@.len() as int) =~= data@);
            assert(shift(whole.0, 0) =~= whole.0);
            assert(out@.map_values(|x: usize| x as nat) + shift(whole.0, 0) =~= whole.0);
        }
        while pos < data.len()
            invariant
                self.wf(),
                self.avg() == avg,
                avg == old(self).avg(),
                whole == feed(avg, old(self).current(), data@),
                self.offset == old(self).offset,
                self.last_offset == old(self).last_offset,
                pos <= data.len(),
                whole.0 == out@.map_values(|x: usize| x as nat) + shift(
                    feed(avg, self.current(), data@.subrange(pos as int, data@.len() as int)).0,
                    pos as nat,
                ),
                whole.1 == feed(
                    avg,
                    self.current(),
                    data@.subrange(pos as int, data@.len() as int),
                ).1,
            decreases data.len() - pos,
        {
            let (_, rest) = data.split_at(pos);
            let ghost g = feed(avg, self.current(), rest@);
            let ghost old_out = out@.map_values(|x: usize| x as nat);
            let c = self.scan(rest);
            if c == 0 {
                pos = data.len();
                proof {
                    let tail = data@.subrange(pos as int, data@.len() as int);
                    assert(tail.len() == 0);
                    assert(self.current() + tail =~= self.current());
                    assert(shift(Seq::<nat>::empty(), pos as nat) =~= Seq::<nat>::empty());
                    assert(old_out + Seq::<nat>::empty() =~= old_out);
                    assert(shift(g.0, (pos - rest@.len()) as nat) =~= Seq::<nat>::empty());
                }
            } else {
                let ghost old_pos = pos;
                pos = pos + c;
                out.push(pos);
                proof {
                    let later = rest@.subrange(c as int, rest@.len() as int);
                    assert(later =~= data@.subrange(pos as int, data@.len() as int));
                    assert(self.current() == Seq::<u8>::empty());
                    let g2 = feed(avg, Seq::empty(), later);
                    assert(out@.map_values(|x: usize| x as nat) =~= old_out.push(pos as nat));
                    assert(shift(g.0, old_pos as nat) =~= seq![pos as nat] + shift(g2.0, pos as nat));
                    assert(old_out + shift(g.0, old_pos as nat) =~= out@.map_values(
                        |x: usize| x as nat,
                    ) + shift(g2.0, pos as nat));
                }
            }
        }
        proof {
            let tail = data@.subrange(pos as int, data@.len() as int);
            assert(tail.len() == 0);
            assert(self.current() + tail =~= self.current());
            assert(shift(Seq::<nat>::empty(), pos as nat) =~= Seq::<nat>::empty());
            assert(out@.map_values(|x: usize| x as nat) + Seq::<nat>::empty() =~= out@.map_values(
                |x: usize| x as nat,
            ));
        }
        out
    }

    /// Consumes `data` up to and including its first boundary, or all of it
    /// when it holds none, and returns how many bytes were consumed. The
    /// stream offset advances by that much; a boundary becomes the last one.
    pub fn write(&mut self, data: &[u8]) -> (r: usize)
        requires
            old(self).wf(),
            old(self).stream_offset() + data.len() <= usize::MAX,
        ensures
            final(self).wf(),
            final(self).avg() == old(self).avg(),
            r == if cut_in(old(self).avg(), old(self).current(), data@) > 0 {
                cut_in(old(self).avg(), old(self).current(), data@)
            } else {
                data.len() as nat
            },
            final(self).stream_offset() == old(self).stream_offset() + r,
            cut_in(old(self).avg(), old(self).current(), data@) > 0 ==> final(self).current()
                == Seq::<u8>::empty() && final(self).last_boundary() == final(self).stream_offset(),
            cut_in(old(self).avg(), old(self).current(), data@) == 0 ==> final(self).current()
                == old(self).current() + data@ && final(self).last_boundary() == old(
                self,
            ).last_boundary(),
    {
        let pos = self.scan(data);
        if pos > 0 {
            self.offset = self.offset + pos;
            self.last_offset = self.offset;
            pos
        } else {
            self.offset = self.offset + data.len();
            data.len()
        }
    }

    /// The configured average chunk size.
    pub fn chunk_size_avg(&self) -> (r: usize)
        requires
            self.wf(),
        ensures
            r == self.avg(),
    {
        self.chunk_size_avg
    }

    /// The smallest size of a chunk that the hash ends.
    pub fn chunk_size_min(&self) -> (r: usize)
        requires
            self.wf(),
        ensures
            r == min_size(self.avg()),
    {
        self.chunk_size_min
    }

    /// The size at which a chunk is always cut.
    pub fn chunk_size_max(&self) -> (r: usize)
        requires
            self.wf(),
        ensures
            r == max_size(self.avg()),
    {
        self.chunk_size_max
    }

    /// The cut discriminator.
    pub fn discriminator(&self) -> (r: u32)
        requires
            self.wf(),
        ensures
            r == discriminator_of(self.avg()),
    {
        self.discriminator
    }

    /// Number of bytes consumed through `write`.
    pub fn offset(&self) -> (r: usize)
        requires
            self.wf(),
        ensures
            r == self.stream_offset(),
    {
        self.offset
    }

    /// Stream offset of the last boundary reported by `write`.
    pub fn last_offset(&self) -> (r: usize)
        requires
            self.wf(),
        ensures
            r == self.last_boundary(),
    {
        self.last_offset
    }

    /// Appends `b` to a window that is not full yet.
    fn fill(&mut self, b: u8)
        requires
            old(self).inv_fields(),
            old(self).h == 0,
            old(self).current().len() < WINDOW_SIZE,
        ensures
            final(self).inv_fields(),
            final(self).h == 0,
            final(self).current@ == old(self).current@.push(b),
            final(self).chunk_size_avg == old(self).chunk_size_avg,
            final(self).offset == old(self).offset,
            final(self).last_offset == old(self).last_offset,
    {
        let ghost p = self.current@;
        proof {
            lemma_window_push(self.window@, p, b);
        }
        self.window[self.window_size] = b;
        self.window_size = self.window_size + 1;
        self.chunk_size = self.chunk_size + 1;
        self.current = Ghost(p.push(b));
    }

    /// Rolls `enter` into a full window: the oldest byte leaves it.
    fn roll(&mut self, enter: u8)
        requires
            old(self).inv(),
            old(self).current().len() >= WINDOW_SIZE,
            cut_in(old(self).avg(), Seq::empty(), old(self).current()) == 0,
        ensures
            final(self).inv(),
            final(self).current@ == old(self).current@.push(enter),
            final(self).chunk_size_avg == old(self).chunk_size_avg,
            final(self).offset == old(self).offset,
            final(self).last_offset == old(self).last_offset,
    {
        let ghost p = self.current@;
        let ghost n = p.len();
        proof {
            if n > WINDOW_SIZE {
                lemma_open_chunk_below_max(self.avg(), p);
            }
        }
        let idx = self.chunk_size % WINDOW_SIZE;
        let leave = self.window[idx];
        proof {
            lemma_window_push(self.window@, p, enter);
            lemma_roll(p.subrange(n - WINDOW_SIZE, n as int), enter);
        }
        self.h = (rotate_left(self.h, 1) ^ rotate_left(entry(leave), WINDOW_SIZE as u32)) ^ entry(
            enter,
        );
        self.chunk_size = self.chunk_size + 1;
        self.window[idx] = enter;
        self.current = Ghost(p.push(enter));
        proof {
            let q = self.current@;
            assert(q.subrange(n + 1 - WINDOW_SIZE, (n + 1) as int) =~= p.subrange(
                n - WINDOW_SIZE,
                n as int,
            ).drop_first().push(enter));
        }
    }

    fn shall_break(&self) -> (r: bool)
        requires
            self.inv(),
            self.chunk_size > WINDOW_SIZE,
        ensures
            r == is_boundary(self.avg(), self.current()),
    {
        if self.chunk_size >= self.chunk_size_max {
            return true;
        }
        if self.chunk_size < self.chunk_size_min {
            return false;
        }
        proof {
            lemma_discriminator_bounds(self.avg());
        }
        (self.h % self.discriminator) == (self.discriminator - 1)
    }

    /// Seeds the hash from a freshly filled window.
    fn start(&mut self)
        requires
            old(self).h == 0,
        ensures
            final(self).h == hash(old(self).window@),
            final(self).window == old(self).window,
            final(self).window_size == old(self).window_size,
            final(self).chunk_size == old(self).chunk_size,
            final(self).chunk_size_min == old(self).chunk_size_min,
            final(self).chunk_size_max == old(self).chunk_size_max,
            final(self).chunk_size_avg == old(self).chunk_size_avg,
            final(self).discriminator == old(self).discriminator,
            final(self).offset == old(self).offset,
            final(self).last_offset == old(self).last_offset,
            final(self).current == old(self).current,
    {
        let window = self.window;
        let window_len = WINDOW_SIZE;
        let mut h: u32 = self.h;
        let mut i: usize = 0;
        while i < window_len - 1
            invariant
                window_len == WINDOW_SIZE,
                window@.len() == WINDOW_SIZE,
                i <= window_len - 1,
                h == seed_fold(window@, i as int),
            decreases window_len - 1 - i,
        {
            let byte = window[i];
            h = h ^ rotate_left(entry(byte), (window_len - (i + 1)) as u32);
            i = i + 1;
        }
        let byte = window[window_len - 1];
        h = h ^ entry(byte);
        proof {
            lemma_seed_fold_is_hash(window@);
        }
        self.h = h;
    }
}

/// The discriminator for `avg`, computed exactly in integers.
fn compute_discriminator(avg: usize) -> (r: u32)
    requires
        avg <= MAX_CHUNK_SIZE_AVG,
    ensures
        r as nat == discriminator_of(avg as nat),
{
    proof {
        lemma_discriminator_bounds(avg as nat);
        assert(avg as u128 * FIT_SCALE <= 8388608 * 1_000_000_000_000_000u128) by (nonlinear_arith)
            requires
                avg <= 8388608,
                FIT_SCALE == 1_000_000_000_000_000u128,
        ;
    }
    let a = avg as u128;
    let num = a * FIT_SCALE;
    let den = FIT_BASE - FIT_SLOPE * a;
    (num / den) as u32
}

} // verus!
