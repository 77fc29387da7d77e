//! Encoding of print jobs into the printer's ESC command stream.

use vstd::prelude::*;

use crate::engine::bitmap::Bitmap1Bit;
use crate::engine::bitmap::{bit_of, lemma_bit_zero, lemma_byte_ext, lemma_pack_byte, pack_byte};

verus! {

const ESC: u8 = 0x1B;

const SYN: u8 = 0x16;

/// Distance between print head and cutter: 8.1mm at 180 DPI is about 57 pixels.
pub const FEED_LINES_FOR_CUT: u16 = 57;

/// `ESC A`: request the printer status (also the flow-control point).
pub open spec fn status_request() -> Seq<u8> {
    seq![0x1Bu8, 0x41u8]
}

/// Whether a status request follows the `n`-th print line (counting from 1):
/// after every `synwait` lines, or after every line when `synwait` is zero.
pub open spec fn status_after(n: int, synwait: int) -> bool {
    synwait == 0 || n % synwait == 0
}

/// One print line on the wire: `SYN`, the line's bytes, then possibly a status request.
pub open spec fn frame(line: Seq<u8>, n: int, synwait: int) -> Seq<u8> {
    seq![0x16u8] + line + if status_after(n, synwait) {
        status_request()
    } else {
        Seq::<u8>::empty()
    }
}

/// The wire form of a sequence of print lines.
pub open spec fn frames(lines: Seq<Seq<u8>>, synwait: int) -> Seq<u8>
    decreases lines.len(),
{
    if lines.len() == 0 {
        Seq::<u8>::empty()
    } else {
        frames(lines.drop_last(), synwait) + frame(lines.last(), lines.len() as int, synwait)
    }
}

/// A column cut to, or padded with zero bytes up to, exactly `bpl` bytes.
pub open spec fn fit_line(bytes: Seq<u8>, bpl: int) -> Seq<u8> {
    if bytes.len() >= bpl {
        bytes.take(bpl)
    } else {
        bytes + Seq::new((bpl - bytes.len()) as nat, |i: int| 0u8)
    }
}

/// `n` blank lines of `bpl` bytes each.
pub open spec fn blank_lines(n: int, bpl: int) -> Seq<Seq<u8>> {
    Seq::new(n as nat, |i: int| Seq::new(bpl as nat, |j: int| 0u8))
}

/// Number of status requests that `frames` inserts among `n` lines.
pub open spec fn status_count(n: int, synwait: int) -> int {
    if synwait == 0 {
        n
    } else {
        n / synwait
    }
}

/// Settings of one print job.
pub struct PrintJob {
    pub bytes_per_line: u8,
    pub tape_color_id: u8,
    pub synwait: u16,
}

impl PrintJob {
    /// `ESC C <tape color>` then `ESC D <bytes per line>`.
    pub open spec fn header(self) -> Seq<u8> {
        seq![0x1Bu8, 0x43u8, self.tape_color_id, 0x1Bu8, 0x44u8, self.bytes_per_line]
    }

    /// The print lines of a bitmap: each column, packed most significant bit first,
    /// fitted to the job's line width.
    pub open spec fn print_lines(self, bitmap: Bitmap1Bit) -> Seq<Seq<u8>> {
        Seq::new(bitmap.width as nat, |c: int| fit_line(bitmap.column_spec(c), self.bytes_per_line as int))
    }

    /// The full command stream that prints `bitmap`.
    pub open spec fn spec_encode(self, bitmap: Bitmap1Bit) -> Seq<u8> {
        self.header() + frames(self.print_lines(bitmap), self.synwait as int) + status_request()
    }

    /// The full command stream that feeds `lines` blank lines.
    pub open spec fn spec_encode_feed(self, lines: int) -> Seq<u8> {
        self.header() + frames(blank_lines(lines, self.bytes_per_line as int), self.synwait as int)
            + status_request()
    }

    /// Appends the job header to `buf`.
    fn push_header(&self, buf: &mut Vec<u8>)
        ensures
            final(buf)@ == old(buf)@ + self.header(),
    {
        buf.push(ESC);
        buf.push(0x43u8);
        buf.push(self.tape_color_id);
        buf.push(ESC);
        buf.push(0x44u8);
        buf.push(self.bytes_per_line);
    }

    /// Appends one framed line to `buf` and advances the flow-control counter.
    fn push_line(&self, buf: &mut Vec<u8>, line: &Vec<u8>, syn_count: &mut u16, Ghost(n): Ghost<int>)
        requires
            n >= 0,
            *old(syn_count) == if self.synwait == 0 { 0 } else { n % (self.synwait as int) },
        ensures
            final(buf)@ == old(buf)@ + frame(fit_line(line@, self.bytes_per_line as int), n + 1, self.synwait as int),
            *final(syn_count) == if self.synwait == 0 { 0 } else { (n + 1) % (self.synwait as int) },
    {
        let ghost start = buf@;
        buf.push(SYN);
        let bpl = self.bytes_per_line as usize;
        let mut k: usize = 0;
        while k < bpl
            invariant
                k <= bpl,
                bpl == self.bytes_per_line,
                buf@ == start + seq![0x16u8] + fit_line(line@, bpl as int).take(k as int),
            decreases bpl - k,
        {
            let b = if k < line.len() { line[k] } else { 0u8 };
            buf.push(b);
            proof {
                let f = fit_line(line@, bpl as int);
                assert(f.len() == bpl);
                assert(f[k as int] == b);
                assert(f.take(k + 1) =~= f.take(k as int).push(b));
            }
            k = k + 1;
        }
        proof {
            let f = fit_line(line@, bpl as int);
            assert(f.len() == bpl);
            assert(f.take(bpl as int) =~= f);
        }
        let ghost w = self.synwait as int;
        proof {
            if w > 0 {
                assert(n % w < w) by (nonlinear_arith)
                    requires
                        w > 0,
                ;
                lemma_mod_succ(n, w);
            }
        }
        *syn_count = *syn_count + 1;
        if *syn_count >= self.synwait {
            buf.push(ESC);
            buf.push(0x41u8);
            *syn_count = 0;
        }
        proof {
            let f = fit_line(line@, bpl as int);
            if w > 0 {
                lemma_mod_succ(n, w);
            }
            assert(buf@ =~= start + frame(f, n + 1, w));
        }
    }

    /// Encodes the bitmap as a print stream: the job header, then one `SYN` line per
    /// column, with a status request after every `synwait` lines and at the end.
    pub fn encode(&self, bitmap: &Bitmap1Bit) -> (buf: Vec<u8>)
        requires
            bitmap.wf(),
        ensures
            buf@ == self.spec_encode(*bitmap),
    {
        let mut buf: Vec<u8> = Vec::new();
        self.push_header(&mut buf);
        let ghost lines = self.print_lines(*bitmap);
        let mut syn_count: u16 = 0;
        let ghost w = self.synwait as int;
        for col_idx in 0..bitmap.width
            invariant
                bitmap.wf(),
                w == self.synwait,
                lines == self.print_lines(*bitmap),
                buf@ == self.header() + frames(lines.take(col_idx as int), w),
                syn_count == if w == 0 { 0 } else { (col_idx as int) % w },
        {
            let col_bytes = bitmap.column_bytes(col_idx);
            self.push_line(&mut buf, &col_bytes, &mut syn_count, Ghost(col_idx as int));
            proof {
                lemma_frames_take(lines, col_idx as int, w);
            }
        }
        proof {
            assert(lines.take(bitmap.width as int) =~= lines);
        }
        buf.push(ESC);
        buf.push(0x41u8);
        buf
    }

    /// Encodes `lines` blank print lines (paper feed), framed like `encode`.
    pub fn encode_feed(&self, lines: u16) -> (buf: Vec<u8>)
        ensures
            buf@ == self.spec_encode_feed(lines as int),
    {
        let mut buf: Vec<u8> = Vec::new();
        let blank_line: Vec<u8> = vec![0u8; self.bytes_per_line as usize];
        self.push_header(&mut buf);
        let ghost all = blank_lines(lines as int, self.bytes_per_line as int);
        let mut syn_count: u16 = 0;
        let ghost w = self.synwait as int;
        proof {
            assert(fit_line(blank_line@, self.bytes_per_line as int) =~= Seq::new(
                self.bytes_per_line as nat,
                |j: int| 0u8,
            ));
        }
        for i in 0..lines
            invariant
                w == self.synwait,
                all == blank_lines(lines as int, self.bytes_per_line as int),
                fit_line(blank_line@, self.bytes_per_line as int) == Seq::new(
                    self.bytes_per_line as nat,
                    |j: int| 0u8,
                ),
                buf@ == self.header() + frames(all.take(i as int), w),
                syn_count == if w == 0 { 0 } else { (i as int) % w },
        {
            self.push_line(&mut buf, &blank_line, &mut syn_count, Ghost(i as int));
            proof {
                assert(all[i as int] == fit_line(blank_line@, self.bytes_per_line as int));
                lemma_frames_take(all, i as int, w);
            }
        }
        proof {
            assert(all.take(lines as int) =~= all);
        }
        buf.push(ESC);
        buf.push(0x41u8);
        buf
    }
}


/// A fitted line is always exactly `bpl` bytes long.
pub proof fn lemma_fit_line_len(bytes: Seq<u8>, bpl: int)
    requires
        bpl >= 0,
    ensures
        fit_line(bytes, bpl).len() == bpl,
{
}

/// Framing `n` lines of `len` bytes each takes `n * (1 + len)` bytes plus two bytes
/// for each status request.
pub proof fn law_frames_len(lines: Seq<Seq<u8>>, len: int, w: int)
    requires
        w >= 0,
        forall|i: int| 0 <= i < lines.len() ==> #[trigger] lines[i].len() == len,
    ensures
        frames(lines, w).len() == lines.len() * (1 + len) + 2 * status_count(lines.len() as int, w),
    decreases lines.len(),
{
    let n = lines.len() as int;
    if n > 0 {
        let prefix = lines.drop_last();
        assert forall|i: int| 0 <= i < prefix.len() implies #[trigger] prefix[i].len() == len by {
            assert(prefix[i] == lines[i]);
        }
        law_frames_len(prefix, len, w);
        assert(lines.last() == lines[n - 1]);
        assert(n * (1 + len) == (n - 1) * (1 + len) + (1 + len)) by (nonlinear_arith);
        if w > 0 {
            assert(status_count(n, w) == status_count(n - 1, w) + if n % w == 0 { 1int } else { 0 }) by (nonlinear_arith)
                requires
                    w > 0,
                    n > 0,
                    status_count(n, w) == n / w,
                    status_count(n - 1, w) == (n - 1) / w,
            ;
        }
    }
}

/// The print stream of a bitmap `W` pixels wide is `8 + W * (1 + bytes_per_line)`
/// bytes plus two for every intermediate status request.
pub proof fn law_encode_len(job: PrintJob, bitmap: Bitmap1Bit)
    ensures
        job.spec_encode(bitmap).len() == 8 + bitmap.width * (1 + job.bytes_per_line)
            + 2 * status_count(bitmap.width as int, job.synwait as int),
{
    let lines = job.print_lines(bitmap);
    assert forall|i: int| 0 <= i < lines.len() implies #[trigger] lines[i].len() == job.bytes_per_line by {
        lemma_fit_line_len(bitmap.column_spec(i), job.bytes_per_line as int);
    }
    law_frames_len(lines, job.bytes_per_line as int, job.synwait as int);
}

/// Feeding `n` lines sends exactly what printing a blank bitmap `n` pixels wide sends.
pub proof fn law_feed_is_blank_print(job: PrintJob, bitmap: Bitmap1Bit)
    requires
        forall|x: int, y: int| !#[trigger] bitmap.pixel(x, y),
    ensures
        job.spec_encode(bitmap) == job.spec_encode_feed(bitmap.width as int),
{
    let bpl = job.bytes_per_line as int;
    let lines = job.print_lines(bitmap);
    let blank = blank_lines(bitmap.width as int, bpl);
    assert forall|c: int| 0 <= c < lines.len() implies #[trigger] lines[c] == blank[c] by {
        let col = bitmap.column_spec(c);
        assert forall|i: int| 0 <= i < col.len() implies col[i] == 0u8 by {
            let f = |k: int| bitmap.pixel(c, 8 * i + k);
            assert forall|j: u8| j < 8 implies bit_of(pack_byte(f), j) == bit_of(0u8, j) by {
                lemma_pack_byte(f, j);
                lemma_bit_zero(j);
            }
            lemma_byte_ext(pack_byte(f), 0u8);
        }
        assert(fit_line(col, bpl) =~= blank[c]);
    }
    assert(lines =~= blank);
}

/// Byte `i` of a fitted column: the packed pixels `8 * i .. 8 * i + 7` of column `c`,
/// zero past the bitmap's height.
proof fn lemma_fit_line_byte(b: Bitmap1Bit, c: int, bpl: int, i: int)
    requires
        0 <= i < bpl,
    ensures
        fit_line(b.column_spec(c), bpl)[i] == pack_byte(|k: int| b.pixel(c, 8 * i + k)),
{
    let col = b.column_spec(c);
    let f = |k: int| b.pixel(c, 8 * i + k);
    if i >= col.len() {
        assert forall|j: u8| j < 8 implies bit_of(pack_byte(f), j) == bit_of(0u8, j) by {
            lemma_pack_byte(f, j);
            lemma_bit_zero(j);
            assert(!b.pixel(c, 8 * i + 7 - j));
        }
        lemma_byte_ext(pack_byte(f), 0u8);
    }
}

/// Only the top `8 * bytes_per_line` rows reach the printer: two bitmaps of the
/// same width whose pixels agree on those rows give the same print stream,
/// whatever their heights and the rest of their pixels.
pub proof fn law_encode_reads_top_rows(job: PrintJob, b1: Bitmap1Bit, b2: Bitmap1Bit)
    requires
        b1.width == b2.width,
        forall|x: int, y: int| 0 <= y < 8 * job.bytes_per_line ==> #[trigger] b1.pixel(x, y) == #[trigger] b2.pixel(x, y),
    ensures
        job.spec_encode(b1) == job.spec_encode(b2),
{
    let bpl = job.bytes_per_line as int;
    let l1 = job.print_lines(b1);
    let l2 = job.print_lines(b2);
    assert forall|c: int| 0 <= c < l1.len() implies #[trigger] l1[c] == l2[c] by {
        lemma_fit_line_len(b1.column_spec(c), bpl);
        lemma_fit_line_len(b2.column_spec(c), bpl);
        assert forall|i: int| 0 <= i < bpl implies l1[c][i] == l2[c][i] by {
            lemma_fit_line_byte(b1, c, bpl, i);
            lemma_fit_line_byte(b2, c, bpl, i);
            assert(8 * i + 7 < 8 * bpl);
            assert(b1.pixel(c, 8 * i) == b2.pixel(c, 8 * i));
            assert(b1.pixel(c, 8 * i + 1) == b2.pixel(c, 8 * i + 1));
            assert(b1.pixel(c, 8 * i + 2) == b2.pixel(c, 8 * i + 2));
            assert(b1.pixel(c, 8 * i + 3) == b2.pixel(c, 8 * i + 3));
            assert(b1.pixel(c, 8 * i + 4) == b2.pixel(c, 8 * i + 4));
            assert(b1.pixel(c, 8 * i + 5) == b2.pixel(c, 8 * i + 5));
            assert(b1.pixel(c, 8 * i + 6) == b2.pixel(c, 8 * i + 6));
            assert(b1.pixel(c, 8 * i + 7) == b2.pixel(c, 8 * i + 7));
        }
        assert(l1[c] =~= l2[c]);
    }
    assert(l1 =~= l2);
}

proof fn lemma_mod_succ(n: int, w: int)
    requires
        n >= 0,
        w > 0,
    ensures
        (n % w) + 1 < w ==> (n + 1) % w == (n % w) + 1,
        (n % w) + 1 == w ==> (n + 1) % w == 0,
        n % w < w,
{
    assert((n % w) + 1 < w ==> (n + 1) % w == (n % w) + 1) by (nonlinear_arith)
        requires
            n >= 0,
            w > 0,
    ;
    assert((n % w) + 1 == w ==> (n + 1) % w == 0) by (nonlinear_arith)
        requires
            n >= 0,
            w > 0,
    ;
    assert(n % w < w) by (nonlinear_arith)
        requires
            w > 0,
    ;
}

/// Framing one more line appends that line's frame.
pub proof fn lemma_frames_take(lines: Seq<Seq<u8>>, i: int, w: int)
    requires
        0 <= i < lines.len(),
    ensures
        frames(lines.take(i + 1), w) == frames(lines.take(i), w) + frame(lines[i], i + 1, w),
{
    assert(lines.take(i + 1).drop_last() =~= lines.take(i));
}

} // verus!
