use vstd::prelude::*;

use crate::parse::{digit_value, digits_value, is_hex_digit};

verus! {

/// Bytes per line of a dump unless the caller chooses otherwise.
pub const DEFAULT_LINE_WIDTH: usize = 16;

/// The lowercase hexadecimal digit for a value below sixteen.
pub open spec fn hex_char(n: nat) -> char {
    if n < 10 {
        ((n + 48) as u8) as char
    } else {
        ((n + 87) as u8) as char
    }
}

/// The lowercase hexadecimal digits of `n`, most significant first, without
/// leading zeros (zero itself is the single digit `0`).
pub open spec fn hex_text(n: nat) -> Seq<char>
    decreases n,
{
    if n < 16 {
        seq![hex_char(n)]
    } else {
        hex_text(n / 16).push(hex_char(n % 16))
    }
}

/// The offset header of a line: the offset in lowercase hexadecimal,
/// zero-padded to at least eight digits.
pub open spec fn offset_text(n: nat) -> Seq<char> {
    let t = hex_text(n);
    if t.len() < 8 {
        Seq::new((8 - t.len()) as nat, |i: int| '0') + t
    } else {
        t
    }
}

/// A byte that the gutter shows as itself: ASCII and not a control character.
pub open spec fn is_printable(b: u8) -> bool {
    0x20 <= b && b < 0x7f
}

/// The hex cell for position `p`: a space and two digits, or three spaces
/// past the end of the data.
pub open spec fn hex_cell(data: Seq<u8>, p: int) -> Seq<char> {
    if p < data.len() {
        seq![' ', hex_char((data[p] / 16) as nat), hex_char((data[p] % 16) as nat)]
    } else {
        seq![' ', ' ', ' ']
    }
}

/// The extra space before slot `i` of a line `w` bytes wide: before every
/// slot whose index is a multiple of `w / 2`, and never when `w` is one.
pub open spec fn group_gap(w: nat, i: nat) -> Seq<char> {
    if w != 1 && i % (w / 2) == 0 {
        seq![' ']
    } else {
        seq![]
    }
}

/// Slot `i` of the hex region of the line starting at `off`.
pub open spec fn hex_slot(data: Seq<u8>, w: nat, off: nat, i: nat) -> Seq<char> {
    group_gap(w, i) + hex_cell(data, (off + i) as int)
}

/// The first `k` slots of the hex region of the line starting at `off`.
pub open spec fn hex_region(data: Seq<u8>, w: nat, off: nat, k: nat) -> Seq<char>
    decreases k,
{
    if k == 0 {
        seq![]
    } else {
        hex_region(data, w, off, (k - 1) as nat) + hex_slot(data, w, off, (k - 1) as nat)
    }
}

/// The gutter character for position `p`: the byte itself when printable, `.`
/// for any other byte, and a space past the end of the data.
pub open spec fn gutter_char(data: Seq<u8>, p: int) -> char {
    if p < data.len() {
        if is_printable(data[p]) {
            data[p] as char
        } else {
            '.'
        }
    } else {
        ' '
    }
}

/// The gutter of the line starting at `off`: one character per slot.
pub open spec fn gutter(data: Seq<u8>, w: nat, off: nat) -> Seq<char> {
    Seq::new(w, |i: int| gutter_char(data, off + i))
}

/// The text of the line `w` bytes wide starting at offset `off`.
pub open spec fn dump_line(data: Seq<u8>, w: nat, off: nat) -> Seq<char> {
    offset_text(off) + hex_region(data, w, off, w) + seq![' ', ' ', '|'] + gutter(data, w, off)
        + seq!['|']
}

/// The number of lines for `len` bytes at `w` bytes per line: `len / w` rounded up.
pub open spec fn line_count(len: nat, w: nat) -> nat
    recommends
        w > 0,
{
    ((len + w - 1) / w as int) as nat
}

/// The lines of the dump of `data` at `w` bytes per line.
pub open spec fn dump_lines(data: Seq<u8>, w: nat) -> Seq<Seq<char>> {
    Seq::new(line_count(data.len(), w), |k: int| dump_line(data, w, (k * w) as nat))
}

/// Relies on String::push: appends one character.
#[verifier::external_body]
fn push_char(s: &mut String, c: char)
    ensures
        final(s)@ == old(s)@.push(c),
{
    s.push(c)
}

/// Returns the lowercase hexadecimal digit of `n`.
pub fn hex_digit(n: u8) -> (c: char)
    requires
        n < 16,
    ensures
        c == hex_char(n as nat),
{
    if n < 10 {
        (n + 48) as char
    } else {
        (n + 87) as char
    }
}

/// Appends the offset header for `n`.
fn push_offset(out: &mut String, n: usize)
    ensures
        final(out)@ == old(out)@ + offset_text(n as nat),
{
    let mut m: usize = n;
    let mut acc: Vec<char> = Vec::new();
    while m >= 16
        invariant
            hex_text(n as nat) == hex_text(m as nat) + acc@,
        decreases m,
    {
        let ghost a = acc@;
        let c = hex_digit((m % 16) as u8);
        acc.insert(0, c);
        proof {
            assert(hex_text(m as nat) == hex_text((m / 16) as nat).push(c));
            assert(hex_text((m / 16) as nat).push(c) + a =~= hex_text((m / 16) as nat) + acc@);
        }
        m = m / 16;
    }
    let ghost a = acc@;
    acc.insert(0, hex_digit(m as u8));
    proof {
        assert(acc@ =~= seq![hex_char(m as nat)] + a);
        assert(acc@ == hex_text(n as nat));
    }
    let ghost start = out@;
    let mut z: usize = acc.len();
    while z < 8
        invariant
            acc@ == hex_text(n as nat),
            acc.len() <= z,
            acc.len() < 8 ==> z <= 8,
            acc.len() >= 8 ==> z == acc.len(),
            z <= 8 ==> out@ =~= start + Seq::new((z - acc.len()) as nat, |i: int| '0'),
            z > 8 ==> out@ == start,
        decreases 8 - z,
    {
        push_char(out, '0');
        z = z + 1;
    }
    let ghost mid = out@;
    let ghost text = offset_text(n as nat);
    if acc.len() < 8 {
        assert(text.subrange(0, text.len() - acc@.len()) =~= Seq::new((8 - acc@.len()) as nat, |i: int| '0'));
    } else {
        assert(text.subrange(0, text.len() - acc@.len()) =~= Seq::<char>::empty());
    }
    assert(mid =~= start + offset_text(n as nat).subrange(0, offset_text(n as nat).len() - acc@.len()));
    let mut j: usize = 0;
    while j < acc.len()
        invariant
            j <= acc.len(),
            out@ =~= mid + acc@.subrange(0, j as int),
        decreases acc.len() - j,
    {
        push_char(out, acc[j]);
        j = j + 1;
    }
    assert(offset_text(n as nat) =~= offset_text(n as nat).subrange(0, offset_text(n as nat).len() - acc@.len()) + acc@);
}

/// Renders one line of a dump: the line `line_width` bytes wide that starts at
/// byte `offset` of `data`. Slots past the end of `data` are blank.
pub fn hexdump_line(data: &[u8], line_width: usize, offset: usize) -> (line: String)
    requires
        line_width > 0,
    ensures
        line@ == dump_line(data@, line_width as nat, offset as nat),
{
    let ghost d = data@;
    let ghost w = line_width as nat;
    let ghost off = offset as nat;
    let mut out = String::new();
    push_offset(&mut out, offset);
    let ghost head = out@;
    let mut i: usize = 0;
    while i < line_width
        invariant
            i <= line_width,
            d == data@,
            w == line_width,
            off == offset,
            out@ == head + hex_region(d, w, off, i as nat),
        decreases line_width - i,
    {
        let ghost before = out@;
        if line_width != 1 && i % (line_width / 2) == 0 {
            push_char(&mut out, ' ');
        }
        let ghost gapped = out@;
        assert(gapped =~= before + group_gap(w, i as nat));
        if offset < data.len() && i < data.len() - offset {
            let b = data[offset + i];
            push_char(&mut out, ' ');
            push_char(&mut out, hex_digit(b / 16));
            push_char(&mut out, hex_digit(b % 16));
        } else {
            push_char(&mut out, ' ');
            push_char(&mut out, ' ');
            push_char(&mut out, ' ');
        }
        assert(out@ =~= gapped + hex_cell(d, off + i));
        assert(out@ =~= head + hex_region(d, w, off, (i + 1) as nat));
        i = i + 1;
    }
    push_char(&mut out, ' ');
    push_char(&mut out, ' ');
    push_char(&mut out, '|');
    let ghost mid = out@;
    let mut j: usize = 0;
    while j < line_width
        invariant
            j <= line_width,
            d == data@,
            w == line_width,
            off == offset,
            out@ =~= mid + gutter(d, w, off).subrange(0, j as int),
        decreases line_width - j,
    {
        let c = if offset < data.len() && j < data.len() - offset {
            let b = data[offset + j];
            if 0x20 <= b && b < 0x7f {
                b as char
            } else {
                '.'
            }
        } else {
            ' '
        };
        assert(c == gutter_char(d, off + j));
        push_char(&mut out, c);
        j = j + 1;
    }
    push_char(&mut out, '|');
    assert(gutter(d, w, off).subrange(0, line_width as int) =~= gutter(d, w, off));
    out
}

proof fn lemma_line_count(len: nat, w: nat, k: nat)
    requires
        w > 0,
        k * w < len <= k * w + w,
    ensures
        line_count(len, w) == k + 1,
{
    let x = (len + w - 1) as int;
    let r = x - (k + 1) * w;
    assert((k + 1) * w == k * w + w) by (nonlinear_arith);
    vstd::arithmetic::div_mod::lemma_fundamental_div_mod_converse(x, w as int, (k + 1) as int, r);
}

proof fn lemma_line_count_covers(len: nat, w: nat)
    requires
        w > 0,
        len > 0,
    ensures
        line_count(len, w) > 0,
        (line_count(len, w) - 1) * w < len <= line_count(len, w) * w,
{
    let x = (len + w - 1) as int;
    let c = line_count(len, w) as int;
    vstd::arithmetic::div_mod::lemma_fundamental_div_mod(x, w as int);
    vstd::arithmetic::div_mod::lemma_mod_bound(x, w as int);
    assert(w * c == c * w) by (nonlinear_arith);
    assert((c - 1) * w == c * w - w) by (nonlinear_arith);
    assert(c > 0) by (nonlinear_arith)
        requires
            c * w > 0,
            w > 0,
    ;
}

/// A dump has one line per `line_width` bytes, rounded up, and so covers the
/// whole input; line `k` starts with the offset header of byte `k * line_width`.
pub proof fn lemma_dump_offsets(data: Seq<u8>, w: nat)
    requires
        w > 0,
    ensures
        dump_lines(data, w).len() == line_count(data.len(), w),
        data.len() > 0 ==> (line_count(data.len(), w) - 1) * w < data.len() <= line_count(
            data.len(),
            w,
        ) * w,
        forall|k: int|
            0 <= k < dump_lines(data, w).len() ==> (#[trigger] dump_lines(data, w)[k]).subrange(
                0,
                offset_text((k * w) as nat).len() as int,
            ) == offset_text((k * w) as nat),
{
    if data.len() > 0 {
        lemma_line_count_covers(data.len(), w);
    }
    assert forall|k: int| 0 <= k < dump_lines(data, w).len() implies (#[trigger] dump_lines(
        data,
        w,
    )[k]).subrange(0, offset_text((k * w) as nat).len() as int) == offset_text((k * w) as nat) by {
        let t = offset_text((k * w) as nat);
        assert(dump_lines(data, w)[k].subrange(0, t.len() as int) =~= t);
    }
}

/// When the length of `data` is not a multiple of `w`, the last line of the
/// dump starts at the last multiple of `w` below the length, and each of its
/// slots past the end of `data` shows three spaces in the hex region and a
/// space in the gutter.
pub proof fn lemma_last_line_blank(data: Seq<u8>, w: nat)
    requires
        w > 0,
        data.len() % w != 0,
    ensures
        ({
            let c = line_count(data.len(), w);
            let off = ((c - 1) * w) as nat;
            &&& c > 0
            &&& off < data.len() < off + w
            &&& dump_lines(data, w)[c - 1] == dump_line(data, w, off)
            &&& forall|i: nat|
                data.len() - off <= i < w ==> hex_cell(data, (off + i) as int) == seq![' ', ' ', ' ']
                    && #[trigger] gutter(data, w, off)[i as int] == ' '
        }),
{
    let len = data.len();
    let c = line_count(len, w);
    if len == 0 {
        vstd::arithmetic::div_mod::lemma_mod_multiples_basic(0, w as int);
        assert(0 * (w as int) == 0);
    }
    lemma_line_count_covers(len, w);
    if len == c * w {
        vstd::arithmetic::div_mod::lemma_mod_multiples_basic(c as int, w as int);
    }
    assert((c - 1) * w == c * w - w) by (nonlinear_arith);
}

proof fn lemma_hex_char_digit(d: nat)
    requires
        d < 16,
    ensures
        is_hex_digit(hex_char(d)),
        digit_value(hex_char(d)) == d,
{
}

proof fn lemma_hex_text_value(n: nat)
    ensures
        digits_value(hex_text(n)) == n,
        forall|i: int| 0 <= i < hex_text(n).len() ==> is_hex_digit(#[trigger] hex_text(n)[i]),
    decreases n,
{
    if n < 16 {
        lemma_hex_char_digit(n);
        assert(hex_text(n).drop_last() =~= Seq::<char>::empty());
        assert(hex_text(n).last() == hex_char(n));
        assert(digits_value(Seq::<char>::empty()) == 0);
        assert(digits_value(hex_text(n)) == digits_value(hex_text(n).drop_last()) * 16 + digit_value(hex_text(n).last()));
    } else {
        lemma_hex_text_value(n / 16);
        lemma_hex_char_digit(n % 16);
        assert(hex_text(n).drop_last() =~= hex_text(n / 16));
        assert(hex_text(n).last() == hex_char(n % 16));
        assert(n == (n / 16) * 16 + n % 16);
        assert(digits_value(hex_text(n)) == digits_value(hex_text(n).drop_last()) * 16 + digit_value(hex_text(n).last()));
    }
}

proof fn lemma_leading_zeros(z: nat, t: Seq<char>)
    ensures
        digits_value(Seq::new(z, |i: int| '0') + t) == digits_value(t),
    decreases t.len(), z,
{
    let s = Seq::new(z, |i: int| '0') + t;
    if t.len() > 0 {
        assert(s.drop_last() =~= Seq::new(z, |i: int| '0') + t.drop_last());
        lemma_leading_zeros(z, t.drop_last());
    } else if z > 0 {
        assert(s.drop_last() =~= Seq::new((z - 1) as nat, |i: int| '0') + t);
        lemma_leading_zeros((z - 1) as nat, t);
    } else {
        assert(s =~= t);
    }
}

/// The offset header of `n` is at least eight lowercase hexadecimal digits
/// whose value is `n`.
pub proof fn lemma_offset_text_value(n: nat)
    ensures
        offset_text(n).len() >= 8,
        digits_value(offset_text(n)) == n,
        forall|i: int| 0 <= i < offset_text(n).len() ==> is_hex_digit(#[trigger] offset_text(n)[i]),
{
    let t = hex_text(n);
    lemma_hex_text_value(n);
    if t.len() < 8 {
        lemma_leading_zeros((8 - t.len()) as nat, t);
        let z = Seq::new((8 - t.len()) as nat, |i: int| '0');
        assert forall|i: int| 0 <= i < offset_text(n).len() implies is_hex_digit(
            #[trigger] offset_text(n)[i],
        ) by {
            if i >= z.len() {
                assert(offset_text(n)[i] == t[i - z.len()]);
            }
        }
    }
}

/// Renders `data` as a dump of `line_width` bytes per line: one line per
/// chunk, in order of offset, the last one padded with blanks.
pub fn hexdump(data: &[u8], line_width: usize) -> (lines: Vec<String>)
    requires
        line_width > 0,
    ensures
        lines.len() == line_count(data@.len(), line_width as nat),
        forall|k: int|
            0 <= k < lines.len() ==> #[trigger] lines[k]@ == dump_lines(data@, line_width as nat)[k],
{
    let mut lines: Vec<String> = Vec::new();
    if data.len() == 0 {
        proof {
            let w = line_width as int;
            vstd::arithmetic::div_mod::lemma_fundamental_div_mod_converse(w - 1, w, 0, w - 1);
        }
        return lines;
    }
    let mut off: usize = 0;
    assert(lines.len() * line_width == 0) by (nonlinear_arith)
        requires
            lines.len() == 0,
    ;
    loop
        invariant_except_break
            off < data.len(),
            off == lines.len() * line_width,
        invariant
            line_width > 0,
            forall|k: int|
                0 <= k < lines.len() ==> #[trigger] lines[k]@ == dump_line(
                    data@,
                    line_width as nat,
                    (k * line_width) as nat,
                ),
        ensures
            lines.len() == line_count(data@.len(), line_width as nat),
            forall|k: int|
                0 <= k < lines.len() ==> #[trigger] lines[k]@ == dump_line(
                    data@,
                    line_width as nat,
                    (k * line_width) as nat,
                ),
        decreases data.len() - off,
    {
        let line = hexdump_line(data, line_width, off);
        lines.push(line);
        if data.len() - off <= line_width {
            proof {
                lemma_line_count(data@.len(), line_width as nat, (lines.len() - 1) as nat);
            }
            break;
        }
        off = off + line_width;
        assert(off == lines.len() * line_width) by (nonlinear_arith)
            requires
                off == (lines.len() - 1) * line_width + line_width,
        ;
    }
    lines
}

} // verus!
