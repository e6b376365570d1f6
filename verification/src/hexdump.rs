//! Rendering of a byte buffer as a hex-dump table: a border line, one row of
//! sixteen bytes per line (offset, hex column, character column) and a
//! closing border line.

use vstd::prelude::*;

verus! {

/// The byte of the character '+'.
pub const PLUS: u8 = 0x2b;
/// The byte of the character '-'.
pub const DASH: u8 = 0x2d;
/// The byte of the character '|'.
pub const BAR: u8 = 0x7c;
/// The byte of the space character.
pub const SPACE: u8 = 0x20;
/// The byte of the line feed.
pub const NEWLINE: u8 = 0x0a;
/// The byte of the character '.'.
pub const DOT: u8 = 0x2e;
/// The byte of the digit '0'.
pub const ZERO: u8 = 0x30;

/// How the character column shows a printable byte.
#[derive(Clone, Copy, Debug, PartialEq, Eq)]
pub enum AsciiStyle {
    /// Each printable byte is followed by a space.
    Spaced,
    /// Printable bytes stand side by side, one column each.
    Packed,
}

/// The lower-case hex digit of a value below 16.
pub open spec fn hex_digit(d: int) -> u8 {
    if d < 10 {
        (0x30 + d) as u8
    } else {
        (0x61 + d - 10) as u8
    }
}

/// The lower-case hex digits of `n`, without leading zeros ("0" for 0).
pub open spec fn hex_digits(n: nat) -> Seq<u8>
    decreases n,
{
    if n < 16 {
        seq![hex_digit(n as int)]
    } else {
        hex_digits(n / 16).push(hex_digit((n % 16) as int))
    }
}

/// The hex digits of `n`, padded on the left with '0' to at least `width`.
pub open spec fn hex_padded(n: nat, width: nat) -> Seq<u8> {
    let d = hex_digits(n);
    if d.len() >= width {
        d
    } else {
        Seq::new((width - d.len()) as nat, |i: int| ZERO) + d
    }
}

/// The two hex digits of a byte.
pub open spec fn hex_byte(b: u8) -> Seq<u8> {
    seq![hex_digit((b / 16) as int), hex_digit((b % 16) as int)]
}

/// A byte that is shown as itself in the character column: an ASCII
/// character that is neither blank nor a control character.
pub open spec fn is_graphic(b: u8) -> bool {
    0x21 <= b <= 0x7e
}

/// `n` copies of the byte `c`.
pub open spec fn repeated(c: u8, n: nat) -> Seq<u8> {
    Seq::new(n, |i: int| c)
}

/// The line that opens and closes the table.
pub open spec fn border() -> Seq<u8> {
    seq![PLUS] + repeated(DASH, 6) + seq![PLUS] + repeated(DASH, 49) + seq![PLUS] + repeated(
        DASH,
        18,
    ) + seq![PLUS, NEWLINE]
}

/// The hex cell for position `pos`: two digits and a space, or three
/// spaces past the end of the data.
pub open spec fn hex_cell(data: Seq<u8>, pos: int) -> Seq<u8> {
    if pos < data.len() {
        hex_byte(data[pos]) + seq![SPACE]
    } else {
        seq![SPACE, SPACE, SPACE]
    }
}

/// The character cell for position `pos`.
pub open spec fn ascii_cell(data: Seq<u8>, pos: int, style: AsciiStyle) -> Seq<u8> {
    if pos < data.len() {
        if is_graphic(data[pos]) {
            match style {
                AsciiStyle::Spaced => seq![data[pos], SPACE],
                AsciiStyle::Packed => seq![data[pos]],
            }
        } else {
            seq![DOT]
        }
    } else {
        seq![SPACE]
    }
}

/// The first `k` hex cells of the row that starts at `offset`.
pub open spec fn hex_cells(data: Seq<u8>, offset: int, k: nat) -> Seq<u8>
    decreases k,
{
    if k == 0 {
        Seq::empty()
    } else {
        hex_cells(data, offset, (k - 1) as nat) + hex_cell(data, offset + k - 1)
    }
}

/// The first `k` character cells of the row that starts at `offset`.
pub open spec fn ascii_cells(data: Seq<u8>, offset: int, k: nat, style: AsciiStyle) -> Seq<u8>
    decreases k,
{
    if k == 0 {
        Seq::empty()
    } else {
        ascii_cells(data, offset, (k - 1) as nat, style) + ascii_cell(data, offset + k - 1, style)
    }
}

/// The row of the table for the sixteen bytes that start at `offset`.
pub open spec fn row(data: Seq<u8>, offset: nat, style: AsciiStyle) -> Seq<u8> {
    seq![BAR, SPACE] + hex_padded(offset, 4) + seq![SPACE, BAR, SPACE] + hex_cells(
        data,
        offset as int,
        16,
    ) + seq![BAR, SPACE] + ascii_cells(data, offset as int, 16, style) + seq![SPACE, BAR, NEWLINE]
}

/// The first `k` rows of the table.
pub open spec fn rows(data: Seq<u8>, k: nat, style: AsciiStyle) -> Seq<u8>
    decreases k,
{
    if k == 0 {
        Seq::empty()
    } else {
        rows(data, (k - 1) as nat, style) + row(data, (16 * (k - 1)) as nat, style)
    }
}

/// The number of rows: one for every sixteen bytes or part of them.
pub open spec fn row_count(len: nat) -> nat {
    (len + 15) / 16
}

/// The whole table for `data`.
pub open spec fn hexdump_table(data: Seq<u8>, style: AsciiStyle) -> Seq<u8> {
    border() + rows(data, row_count(data.len()), style) + border()
}


/// The lower-case hex digit of `d`.
fn hex_digit_byte(d: u8) -> (c: u8)
    requires
        d < 16,
    ensures
        c == hex_digit(d as int),
{
    if d < 10 {
        0x30 + d
    } else {
        0x61 + d - 10
    }
}

/// Appends the hex digits of `n`, without leading zeros.
fn push_hex_digits(out: &mut Vec<u8>, n: usize)
    ensures
        final(out)@ == old(out)@ + hex_digits(n as nat),
    decreases n,
{
    if n >= 16 {
        push_hex_digits(out, n / 16);
    }
    let d: u8 = hex_digit_byte((n % 16) as u8);
    out.push(d);
    proof {
        if n < 16 {
            assert(old(out)@ + hex_digits(n as nat) =~= old(out)@.push(d));
        } else {
            assert((old(out)@ + hex_digits((n / 16) as nat)).push(d) =~= old(out)@ + hex_digits(
                n as nat,
            ));
        }
    }
}

/// The number of hex digits of `n`.
fn hex_digit_count(n: usize) -> (c: usize)
    ensures
        c == hex_digits(n as nat).len(),
        1 <= c <= n + 1,
    decreases n,
{
    if n < 16 {
        1
    } else {
        hex_digit_count(n / 16) + 1
    }
}

/// Appends `n` copies of `c`.
fn push_repeated(out: &mut Vec<u8>, c: u8, n: usize)
    ensures
        final(out)@ == old(out)@ + repeated(c, n as nat),
{
    let mut i: usize = 0;
    while i < n
        invariant
            i <= n,
            out@ == old(out)@ + repeated(c, i as nat),
        decreases n - i,
    {
        out.push(c);
        i = i + 1;
        assert(out@ =~= old(out)@ + repeated(c, i as nat));
    }
}

/// Appends the hex digits of `n`, padded with '0' to at least `width`.
fn push_hex_padded(out: &mut Vec<u8>, n: usize, width: usize)
    ensures
        final(out)@ == old(out)@ + hex_padded(n as nat, width as nat),
{
    let count: usize = hex_digit_count(n);
    if count < width {
        push_repeated(out, ZERO, width - count);
        push_hex_digits(out, n);
        assert(out@ =~= old(out)@ + hex_padded(n as nat, width as nat));
    } else {
        push_hex_digits(out, n);
    }
}

/// Appends the bytes of the line that opens and closes the table.
fn push_border(out: &mut Vec<u8>)
    ensures
        final(out)@ == old(out)@ + border(),
{
    out.push(PLUS);
    push_repeated(out, DASH, 6);
    out.push(PLUS);
    push_repeated(out, DASH, 49);
    out.push(PLUS);
    push_repeated(out, DASH, 18);
    out.push(PLUS);
    out.push(NEWLINE);
    assert(out@ =~= old(out)@ + border());
}

/// Appends the hex column of the row that starts at `offset`.
fn push_hex_cells(out: &mut Vec<u8>, data: &[u8], offset: usize)
    requires
        offset <= data@.len(),
    ensures
        final(out)@ == old(out)@ + hex_cells(data@, offset as int, 16),
{
    let mut index: usize = 0;
    while index < 16
        invariant
            index <= 16,
            offset <= data@.len(),
            out@ == old(out)@ + hex_cells(data@, offset as int, index as nat),
        decreases 16 - index,
    {
        let ghost before: Seq<u8> = out@;
        if index < data.len() - offset {
            let b: u8 = data[offset + index];
            out.push(hex_digit_byte(b / 16));
            out.push(hex_digit_byte(b % 16));
            out.push(SPACE);
        } else {
            out.push(SPACE);
            out.push(SPACE);
            out.push(SPACE);
        }
        assert(out@ =~= before + hex_cell(data@, offset + index));
        index = index + 1;
        assert(out@ =~= old(out)@ + hex_cells(data@, offset as int, index as nat));
    }
}

/// Appends the character column of the row that starts at `offset`.
fn push_ascii_cells(out: &mut Vec<u8>, data: &[u8], offset: usize, style: AsciiStyle)
    requires
        offset <= data@.len(),
    ensures
        final(out)@ == old(out)@ + ascii_cells(data@, offset as int, 16, style),
{
    let mut index: usize = 0;
    while index < 16
        invariant
            index <= 16,
            offset <= data@.len(),
            out@ == old(out)@ + ascii_cells(data@, offset as int, index as nat, style),
        decreases 16 - index,
    {
        let ghost before: Seq<u8> = out@;
        if index < data.len() - offset {
            let b: u8 = data[offset + index];
            if 0x21 <= b && b <= 0x7e {
                out.push(b);
                match style {
                    AsciiStyle::Spaced => out.push(SPACE),
                    AsciiStyle::Packed => {},
                }
            } else {
                out.push(DOT);
            }
        } else {
            out.push(SPACE);
        }
        assert(out@ =~= before + ascii_cell(data@, offset + index, style));
        index = index + 1;
        assert(out@ =~= old(out)@ + ascii_cells(data@, offset as int, index as nat, style));
    }
}

/// Appends the row of the table for the sixteen bytes that start at `offset`.
fn push_row(out: &mut Vec<u8>, data: &[u8], offset: usize, style: AsciiStyle)
    requires
        offset <= data@.len(),
    ensures
        final(out)@ == old(out)@ + row(data@, offset as nat, style),
{
    out.push(BAR);
    out.push(SPACE);
    push_hex_padded(out, offset, 4);
    out.push(SPACE);
    out.push(BAR);
    out.push(SPACE);
    push_hex_cells(out, data, offset);
    out.push(BAR);
    out.push(SPACE);
    push_ascii_cells(out, data, offset, style);
    out.push(SPACE);
    out.push(BAR);
    out.push(NEWLINE);
    assert(out@ =~= old(out)@ + row(data@, offset as nat, style));
}

/// Renders `data` as a hex-dump table: a border line, a row for every
/// sixteen bytes (or the part of them that is left) with the offset, the
/// bytes in hex and their characters, and a closing border line.
pub fn render_hexdump(data: &[u8], style: AsciiStyle) -> (text: Vec<u8>)
    ensures
        text@ == hexdump_table(data@, style),
{
    let len: usize = data.len();
    let count: usize = len / 16 + if len % 16 == 0 {
        0
    } else {
        1
    };
    assert(count == row_count(len as nat));
    let mut out: Vec<u8> = Vec::new();
    push_border(&mut out);
    let mut k: usize = 0;
    while k < count
        invariant
            k <= count,
            count == row_count(len as nat),
            len == data@.len(),
            out@ == border() + rows(data@, k as nat, style),
        decreases count - k,
    {
        assert(16 * k < len) by (nonlinear_arith)
            requires
                k < count,
                count == (len + 15) / 16,
        ;
        let offset: usize = 16 * k;
        push_row(&mut out, data, offset, style);
        k = k + 1;
        assert(out@ =~= border() + rows(data@, k as nat, style));
    }
    push_border(&mut out);
    out
}


/// A value below `0x10000` has at most four hex digits.
proof fn lemma_hex_digits_short(n: nat)
    ensures
        1 <= hex_digits(n).len(),
        n < 0x100 ==> hex_digits(n).len() <= 2,
        n < 0x1000 ==> hex_digits(n).len() <= 3,
        n < 0x10000 ==> hex_digits(n).len() <= 4,
    decreases n,
{
    if n >= 16 {
        lemma_hex_digits_short(n / 16);
    }
}

/// Each hex cell takes three columns.
proof fn lemma_hex_cells_len(data: Seq<u8>, offset: int, k: nat)
    ensures
        hex_cells(data, offset, k).len() == 3 * k,
    decreases k,
{
    if k > 0 {
        lemma_hex_cells_len(data, offset, (k - 1) as nat);
    }
}

/// In the packed style each character cell takes one column.
proof fn lemma_packed_ascii_cells_len(data: Seq<u8>, offset: int, k: nat)
    ensures
        ascii_cells(data, offset, k, AsciiStyle::Packed).len() == k,
    decreases k,
{
    if k > 0 {
        lemma_packed_ascii_cells_len(data, offset, (k - 1) as nat);
    }
}

/// In the packed style, a row whose offset has at most four hex digits is
/// as wide as the border line.
pub proof fn lemma_packed_row_width(data: Seq<u8>, offset: nat)
    requires
        offset < 0x10000,
    ensures
        row(data, offset, AsciiStyle::Packed).len() == border().len(),
        border().len() == 78,
{
    lemma_hex_digits_short(offset);
    lemma_hex_cells_len(data, offset as int, 16);
    lemma_packed_ascii_cells_len(data, offset as int, 16);
}

/// The first `k` packed rows take 78 bytes each.
proof fn lemma_packed_rows_len(data: Seq<u8>, k: nat)
    requires
        16 * k <= 0x10000,
    ensures
        rows(data, k, AsciiStyle::Packed).len() == 78 * k,
    decreases k,
{
    if k > 0 {
        lemma_packed_rows_len(data, (k - 1) as nat);
        lemma_packed_row_width(data, (16 * (k - 1)) as nat);
    }
}

/// In the packed style the table is aligned: for data of at most 64 KiB,
/// every line, rows and borders alike, is 78 bytes long, so the table takes
/// 78 bytes for each row and for each of the two borders.
pub proof fn lemma_packed_table_aligned(data: Seq<u8>)
    requires
        data.len() <= 0x10000,
    ensures
        forall|k: nat|
            k < row_count(data.len()) ==> #[trigger] row(data, 16 * k, AsciiStyle::Packed).len()
                == 78,
        hexdump_table(data, AsciiStyle::Packed).len() == 78 * (row_count(data.len()) + 2),
{
    let n: nat = row_count(data.len());
    assert(16 * n <= 0x10000) by (nonlinear_arith)
        requires
            n == (data.len() + 15) / 16,
            data.len() <= 0x10000,
    ;
    assert forall|k: nat| k < n implies #[trigger] row(data, 16 * k, AsciiStyle::Packed).len()
        == 78 by {
        lemma_packed_row_width(data, 16 * k);
    }
    lemma_packed_rows_len(data, n);
    lemma_packed_row_width(data, 0);
}


/// The value of a lower-case hex digit character, and -1 for any other byte.
pub open spec fn hex_value(c: u8) -> int {
    if 0x30 <= c <= 0x39 {
        c - 0x30
    } else if 0x61 <= c <= 0x66 {
        c - 0x61 + 10
    } else {
        -1
    }
}

/// Every value below 16 is written as the lower-case hex digit that reads
/// back as it.
pub proof fn lemma_hex_digit_reads_back(d: int)
    requires
        0 <= d < 16,
    ensures
        hex_value(hex_digit(d)) == d,
{
}

/// The hex cell of a byte reads back as the byte: its first character is
/// the digit of the high four bits, its second that of the low four bits.
pub proof fn lemma_hex_byte_reads_back(b: u8)
    ensures
        hex_byte(b).len() == 2,
        0 <= hex_value(hex_byte(b)[0]) < 16,
        0 <= hex_value(hex_byte(b)[1]) < 16,
        hex_value(hex_byte(b)[0]) * 16 + hex_value(hex_byte(b)[1]) == b,
{
    lemma_hex_digit_reads_back((b / 16) as int);
    lemma_hex_digit_reads_back((b % 16) as int);
}

/// An offset below `0x10000` is written as four hex digits, most
/// significant first, that read back as the offset.
pub proof fn lemma_hex_padded_reads_back(n: nat)
    requires
        n < 0x10000,
    ensures
        hex_padded(n, 4).len() == 4,
        forall|i: int| 0 <= i < 4 ==> 0 <= #[trigger] hex_value(hex_padded(n, 4)[i]) < 16,
        hex_value(hex_padded(n, 4)[0]) * 0x1000 + hex_value(hex_padded(n, 4)[1]) * 0x100
            + hex_value(hex_padded(n, 4)[2]) * 0x10 + hex_value(hex_padded(n, 4)[3]) == n,
{
    let d0: int = (n / 0x1000) as int;
    let d1: int = ((n / 0x100) % 16) as int;
    let d2: int = ((n / 0x10) % 16) as int;
    let d3: int = (n % 16) as int;
    let expected: Seq<u8> = seq![hex_digit(d0), hex_digit(d1), hex_digit(d2), hex_digit(d3)];
    lemma_hex_digit_reads_back(d0);
    lemma_hex_digit_reads_back(d1);
    lemma_hex_digit_reads_back(d2);
    lemma_hex_digit_reads_back(d3);
    lemma_hex_digit_reads_back(0);
    let z: u8 = ZERO;
    assert(hex_digit(0) == z);
    if n < 16 {
        assert(hex_digits(n) == seq![hex_digit(d3)]);
        assert(hex_padded(n, 4) =~= expected);
    } else if n < 0x100 {
        assert(hex_digits(n / 16) == seq![hex_digit(d2)]);
        assert(hex_digits(n) =~= seq![hex_digit(d2), hex_digit(d3)]);
        assert(hex_padded(n, 4) =~= expected);
    } else if n < 0x1000 {
        assert(hex_digits(n / 256) == seq![hex_digit(d1)]);
        assert(hex_digits(n / 16) =~= seq![hex_digit(d1), hex_digit(d2)]);
        assert(hex_digits(n) =~= seq![hex_digit(d1), hex_digit(d2), hex_digit(d3)]);
        assert(hex_padded(n, 4) =~= expected);
    } else {
        assert(hex_digits(n / 0x1000) == seq![hex_digit(d0)]);
        assert(hex_digits(n / 256) =~= seq![hex_digit(d0), hex_digit(d1)]);
        assert(hex_digits(n / 16) =~= seq![hex_digit(d0), hex_digit(d1), hex_digit(d2)]);
        assert(hex_digits(n) =~= expected);
    }
    assert(hex_padded(n, 4) == expected);
}


/// The hex cells of a row, three characters each, in position order.
proof fn lemma_hex_cells_index(data: Seq<u8>, offset: int, k: nat)
    ensures
        hex_cells(data, offset, k).len() == 3 * k,
        forall|i: int, t: int|
            0 <= i < k && 0 <= t < 3 ==> #[trigger] hex_cells(data, offset, k)[3 * i + t]
                == hex_cell(data, offset + i)[t],
    decreases k,
{
    if k > 0 {
        lemma_hex_cells_index(data, offset, (k - 1) as nat);
        let prev: Seq<u8> = hex_cells(data, offset, (k - 1) as nat);
        let last: Seq<u8> = hex_cell(data, offset + k - 1);
        assert forall|i: int, t: int| 0 <= i < k && 0 <= t < 3 implies #[trigger] hex_cells(
            data,
            offset,
            k,
        )[3 * i + t] == hex_cell(data, offset + i)[t] by {
            if i < k - 1 {
                assert(hex_cells(data, offset, k)[3 * i + t] == prev[3 * i + t]);
            } else {
                assert(hex_cells(data, offset, k)[3 * i + t] == last[t]);
            }
        }
    }
}

/// In the packed style the character cells of a row take one column each,
/// in position order.
proof fn lemma_packed_ascii_cells_index(data: Seq<u8>, offset: int, k: nat)
    ensures
        ascii_cells(data, offset, k, AsciiStyle::Packed).len() == k,
        forall|i: int|
            0 <= i < k ==> #[trigger] ascii_cells(data, offset, k, AsciiStyle::Packed)[i]
                == ascii_cell(data, offset + i, AsciiStyle::Packed)[0],
    decreases k,
{
    if k > 0 {
        lemma_packed_ascii_cells_index(data, offset, (k - 1) as nat);
    }
}

/// The layout of a row whose offset is below `0x10000`, in either style:
/// "| ", four hex digits that read back as the offset, " | ", then for each
/// of the sixteen positions the two hex digits that read back as the byte
/// there (two spaces past the end of the data) and a space, then "| ", the
/// character column, and " |" with a line feed.
pub proof fn lemma_row_layout(data: Seq<u8>, offset: nat, style: AsciiStyle)
    requires
        offset < 0x10000,
    ensures
        row(data, offset, style).len() >= 62,
        row(data, offset, style)[0] == 0x7c,
        row(data, offset, style)[1] == 0x20,
        forall|j: int| 2 <= j < 6 ==> 0 <= #[trigger] hex_value(row(data, offset, style)[j]) < 16,
        hex_value(row(data, offset, style)[2]) * 0x1000 + hex_value(row(data, offset, style)[3])
            * 0x100 + hex_value(row(data, offset, style)[4]) * 0x10 + hex_value(
            row(data, offset, style)[5],
        ) == offset,
        row(data, offset, style)[6] == 0x20,
        row(data, offset, style)[7] == 0x7c,
        row(data, offset, style)[8] == 0x20,
        forall|i: int|
            #![trigger row(data, offset, style)[9 + 3 * i]]
            0 <= i < 16 && offset + i < data.len() ==> 0 <= hex_value(
                row(data, offset, style)[9 + 3 * i],
            ) < 16 && 0 <= hex_value(row(data, offset, style)[10 + 3 * i]) < 16 && hex_value(
                row(data, offset, style)[9 + 3 * i],
            ) * 16 + hex_value(row(data, offset, style)[10 + 3 * i]) == data[offset + i],
        forall|i: int|
            #![trigger row(data, offset, style)[9 + 3 * i]]
            0 <= i < 16 && offset + i >= data.len() ==> row(data, offset, style)[9 + 3 * i] == 0x20
                && row(data, offset, style)[10 + 3 * i] == 0x20,
        forall|i: int| 0 <= i < 16 ==> #[trigger] row(data, offset, style)[11 + 3 * i] == 0x20,
        row(data, offset, style)[57] == 0x7c,
        row(data, offset, style)[58] == 0x20,
        row(data, offset, style)[row(data, offset, style).len() - 3] == 0x20,
        row(data, offset, style)[row(data, offset, style).len() - 2] == 0x7c,
        row(data, offset, style)[row(data, offset, style).len() - 1] == 0x0a,
{
    let r: Seq<u8> = row(data, offset, style);
    let label: Seq<u8> = hex_padded(offset, 4);
    let cells: Seq<u8> = hex_cells(data, offset as int, 16);
    let chars: Seq<u8> = ascii_cells(data, offset as int, 16, style);
    lemma_hex_padded_reads_back(offset);
    lemma_hex_cells_index(data, offset as int, 16);
    let a: Seq<u8> = seq![BAR, SPACE] + label + seq![SPACE, BAR, SPACE];
    let b: Seq<u8> = a + cells + seq![BAR, SPACE];
    assert(a.len() == 9);
    assert(b.len() == 59);
    assert(r == b + chars + seq![SPACE, BAR, NEWLINE]);
    assert forall|j: int| 0 <= j < 9 implies r[j] == a[j] by {
        assert(r[j] == b[j]);
        assert(b[j] == a[j]);
    }
    assert forall|j: int| 2 <= j < 6 implies r[j] == label[j - 2] by {
        assert(r[j] == a[j]);
    }
    assert(r[2] == label[0] && r[3] == label[1] && r[4] == label[2] && r[5] == label[3]);
    assert forall|j: int| 9 <= j < 57 implies r[j] == cells[j - 9] by {
        assert(r[j] == b[j]);
    }
    assert(r[57] == b[57] && r[58] == b[58]);
    assert forall|i: int| #![trigger r[9 + 3 * i]] #![trigger r[11 + 3 * i]] 0 <= i < 16 implies r[11 + 3 * i] == 0x20 && (offset + i
        < data.len() ==> 0 <= hex_value(r[9 + 3 * i]) < 16 && 0 <= hex_value(r[10 + 3 * i]) < 16
        && hex_value(r[9 + 3 * i]) * 16 + hex_value(r[10 + 3 * i]) == data[offset + i]) && (offset
        + i >= data.len() ==> r[9 + 3 * i] == 0x20 && r[10 + 3 * i] == 0x20) by {
        assert(r[9 + 3 * i] == cells[3 * i + 0]);
        assert(r[10 + 3 * i] == cells[3 * i + 1]);
        assert(r[11 + 3 * i] == cells[3 * i + 2]);
        if offset + i < data.len() {
            lemma_hex_byte_reads_back(data[offset + i]);
        }
    }
    assert forall|j: int| 2 <= j < 6 implies 0 <= #[trigger] hex_value(r[j]) < 16 by {
        assert(r[j] == label[j - 2]);
    }
}

/// In the packed style a row whose offset is below `0x10000` is 78 bytes
/// wide, and its character column shows, for each of the sixteen positions,
/// the byte itself when it is a visible ASCII character (0x21 to 0x7e), a
/// '.' for any other byte, and a space past the end of the data.
pub proof fn lemma_packed_row_characters(data: Seq<u8>, offset: nat)
    requires
        offset < 0x10000,
    ensures
        row(data, offset, AsciiStyle::Packed).len() == 78,
        forall|i: int|
            0 <= i < 16 ==> #[trigger] row(data, offset, AsciiStyle::Packed)[59 + i] == (if offset
                + i < data.len() {
                if 0x21 <= data[offset + i] <= 0x7e {
                    data[offset + i]
                } else {
                    0x2eu8
                }
            } else {
                0x20u8
            }),
{
    let r: Seq<u8> = row(data, offset, AsciiStyle::Packed);
    let chars: Seq<u8> = ascii_cells(data, offset as int, 16, AsciiStyle::Packed);
    lemma_hex_padded_reads_back(offset);
    lemma_hex_cells_index(data, offset as int, 16);
    lemma_packed_ascii_cells_index(data, offset as int, 16);
    let b: Seq<u8> = seq![BAR, SPACE] + hex_padded(offset, 4) + seq![SPACE, BAR, SPACE]
        + hex_cells(data, offset as int, 16) + seq![BAR, SPACE];
    assert(b.len() == 59);
    assert(r == b + chars + seq![SPACE, BAR, NEWLINE]);
    assert forall|i: int| 0 <= i < 16 implies #[trigger] r[59 + i] == (if offset + i < data.len() {
        if 0x21 <= data[offset + i] <= 0x7e {
            data[offset + i]
        } else {
            0x2eu8
        }
    } else {
        0x20u8
    }) by {
        assert(r[59 + i] == chars[i]);
    }
}

/// In the spaced style, the character cell of a byte is the byte and a
/// space when it is a visible ASCII character (0x21 to 0x7e), and a '.'
/// for any other byte.
pub proof fn lemma_spaced_character_cell(data: Seq<u8>, p: int)
    requires
        0 <= p < data.len(),
    ensures
        ascii_cell(data, p, AsciiStyle::Spaced) == (if 0x21 <= data[p] <= 0x7e {
            seq![data[p], 0x20u8]
        } else {
            seq![0x2eu8]
        }),
{
}


/// The byte at column `j` of the border line: '+' at the corners and the
/// column joints, a line feed at the end, '-' elsewhere.
pub open spec fn border_byte(j: int) -> u8 {
    if j == 0 || j == 7 || j == 57 || j == 76 {
        0x2b
    } else if j == 77 {
        0x0a
    } else {
        0x2d
    }
}

/// The border line is 78 bytes, as `border_byte` gives them.
proof fn lemma_border_bytes()
    ensures
        border().len() == 78,
        forall|j: int| 0 <= j < 78 ==> #[trigger] border()[j] == border_byte(j),
{
    assert forall|j: int| 0 <= j < 78 implies #[trigger] border()[j] == border_byte(j) by {
        let a: Seq<u8> = seq![PLUS] + repeated(DASH, 6) + seq![PLUS];
        let b: Seq<u8> = a + repeated(DASH, 49) + seq![PLUS];
        let c: Seq<u8> = b + repeated(DASH, 18);
        assert(border() == c + seq![PLUS, NEWLINE]);
        assert(a.len() == 8 && b.len() == 58 && c.len() == 76);
        if j < 76 {
            assert(border()[j] == c[j]);
            if j < 58 {
                assert(c[j] == b[j]);
                if j < 8 {
                    assert(b[j] == a[j]);
                }
            }
        }
    }
}

/// The first `n` packed rows, each 78 bytes, stand one after the other.
proof fn lemma_packed_rows_index(data: Seq<u8>, n: nat)
    requires
        16 * n <= 0x10000,
    ensures
        rows(data, n, AsciiStyle::Packed).len() == 78 * n,
        forall|k: int, j: int|
            0 <= k < n && 0 <= j < 78 ==> #[trigger] rows(data, n, AsciiStyle::Packed)[78 * k + j]
                == row(data, (16 * k) as nat, AsciiStyle::Packed)[j],
    decreases n,
{
    if n > 0 {
        let m: nat = (n - 1) as nat;
        lemma_packed_rows_index(data, m);
        lemma_packed_row_width(data, 16 * m);
        let prev: Seq<u8> = rows(data, m, AsciiStyle::Packed);
        let last: Seq<u8> = row(data, 16 * m, AsciiStyle::Packed);
        assert forall|k: int, j: int| 0 <= k < n && 0 <= j < 78 implies #[trigger] rows(
            data,
            n,
            AsciiStyle::Packed,
        )[78 * k + j] == row(data, (16 * k) as nat, AsciiStyle::Packed)[j] by {
            if k < m {
                assert(78 * k + j < 78 * m) by (nonlinear_arith)
                    requires
                        k < m,
                        j < 78,
                ;
                assert(rows(data, n, AsciiStyle::Packed)[78 * k + j] == prev[78 * k + j]);
            } else {
                assert(rows(data, n, AsciiStyle::Packed)[78 * k + j] == last[j]);
            }
        }
    }
}

/// The layout of a packed table of at most 64 KiB: a border line, then the
/// rows for offsets 0, 16, 32, ... in that order, 78 bytes each, then a
/// border line.
pub proof fn lemma_packed_table_layout(data: Seq<u8>)
    requires
        data.len() <= 0x10000,
    ensures
        hexdump_table(data, AsciiStyle::Packed).len() == 78 * (row_count(data.len()) + 2),
        forall|j: int|
            0 <= j < 78 ==> #[trigger] hexdump_table(data, AsciiStyle::Packed)[j] == border_byte(j)
                && hexdump_table(data, AsciiStyle::Packed)[78 * (row_count(data.len()) + 1) + j]
                == border_byte(j),
        forall|k: int, j: int|
            0 <= k < row_count(data.len()) && 0 <= j < 78 ==> #[trigger] hexdump_table(
                data,
                AsciiStyle::Packed,
            )[78 + 78 * k + j] == row(data, (16 * k) as nat, AsciiStyle::Packed)[j],
{
    let n: nat = row_count(data.len());
    assert(16 * n <= 0x10000) by (nonlinear_arith)
        requires
            n == (data.len() + 15) / 16,
            data.len() <= 0x10000,
    ;
    lemma_packed_rows_index(data, n);
    lemma_border_bytes();
    let t: Seq<u8> = hexdump_table(data, AsciiStyle::Packed);
    let body: Seq<u8> = border() + rows(data, n, AsciiStyle::Packed);
    assert(t == body + border());
    assert(body.len() == 78 * (n + 1));
    assert forall|j: int| 0 <= j < 78 implies #[trigger] t[j] == border_byte(j) && t[78 * (n + 1)
        + j] == border_byte(j) by {
        assert(t[j] == body[j]);
        assert(body[j] == border()[j]);
    }
    assert forall|k: int, j: int| 0 <= k < n && 0 <= j < 78 implies #[trigger] t[78 + 78 * k + j]
        == row(data, (16 * k) as nat, AsciiStyle::Packed)[j] by {
        assert(78 * k + j < 78 * n) by (nonlinear_arith)
            requires
                k < n,
                j < 78,
        ;
        assert(t[78 + 78 * k + j] == body[78 + 78 * k + j]);
        assert(body[78 + 78 * k + j] == rows(data, n, AsciiStyle::Packed)[78 * k + j]);
    }
}

/// In a packed table of at most 64 KiB, every byte `data[p]` stands in the
/// row for offset `16 * (p / 16)`: that row's label reads back as its
/// offset, its hex column at position `p % 16` reads back as `data[p]`, and
/// its character column there shows `data[p]` itself when it is a visible
/// ASCII character (0x21 to 0x7e) and '.' otherwise.
pub proof fn lemma_packed_table_shows_each_byte(data: Seq<u8>, p: int)
    requires
        data.len() <= 0x10000,
        0 <= p < data.len(),
    ensures
        ({
            let t = hexdump_table(data, AsciiStyle::Packed);
            let start = 78 + 78 * (p / 16);
            &&& hex_value(t[start + 2]) * 0x1000 + hex_value(t[start + 3]) * 0x100 + hex_value(
                t[start + 4],
            ) * 0x10 + hex_value(t[start + 5]) == 16 * (p / 16)
            &&& 0 <= hex_value(t[start + 9 + 3 * (p % 16)]) < 16
            &&& 0 <= hex_value(t[start + 10 + 3 * (p % 16)]) < 16
            &&& hex_value(t[start + 9 + 3 * (p % 16)]) * 16 + hex_value(
                t[start + 10 + 3 * (p % 16)],
            ) == data[p]
            &&& t[start + 59 + p % 16] == (if 0x21 <= data[p] <= 0x7e {
                data[p]
            } else {
                0x2eu8
            })
        }),
{
    let k: int = p / 16;
    let i: int = p % 16;
    let offset: nat = (16 * k) as nat;
    assert(k < row_count(data.len()));
    assert(offset + i == p);
    lemma_packed_table_layout(data);
    lemma_row_layout(data, offset, AsciiStyle::Packed);
    lemma_packed_row_characters(data, offset);
    let t: Seq<u8> = hexdump_table(data, AsciiStyle::Packed);
    let r: Seq<u8> = row(data, offset, AsciiStyle::Packed);
    assert(t[78 + 78 * k + 2] == r[2]);
    assert(t[78 + 78 * k + 3] == r[3]);
    assert(t[78 + 78 * k + 4] == r[4]);
    assert(t[78 + 78 * k + 5] == r[5]);
    assert(t[78 + 78 * k + (9 + 3 * i)] == r[9 + 3 * i]);
    assert(t[78 + 78 * k + (10 + 3 * i)] == r[10 + 3 * i]);
    assert(t[78 + 78 * k + (59 + i)] == r[59 + i]);
}


/// The number of columns that the spaced character column gives the byte
/// at position `p`: two for a visible ASCII character (the byte and a
/// space), one otherwise.
pub open spec fn spaced_width(data: Seq<u8>, p: int) -> int {
    if 0 <= p < data.len() && 0x21 <= data[p] <= 0x7e {
        2
    } else {
        1
    }
}

/// Where, in the spaced character column of the row at `offset`, the cell
/// of its `i`-th position starts: the widths of the cells before it.
pub open spec fn spaced_position(data: Seq<u8>, offset: int, i: nat) -> int
    decreases i,
{
    if i == 0 {
        0
    } else {
        spaced_position(data, offset, (i - 1) as nat) + spaced_width(data, offset + i - 1)
    }
}

/// Each spaced cell takes one or two columns.
proof fn lemma_spaced_position_bounds(data: Seq<u8>, offset: int, i: nat)
    ensures
        i <= spaced_position(data, offset, i) <= 2 * i,
    decreases i,
{
    if i > 0 {
        lemma_spaced_position_bounds(data, offset, (i - 1) as nat);
    }
}

/// The spaced character cells stand one after the other, each as wide as
/// `spaced_width` says.
proof fn lemma_spaced_ascii_cells_index(data: Seq<u8>, offset: int, k: nat)
    requires
        0 <= offset,
    ensures
        ascii_cells(data, offset, k, AsciiStyle::Spaced).len() == spaced_position(data, offset, k),
        forall|i: nat, t: int|
            i < k && 0 <= t < spaced_width(data, offset + i) ==> #[trigger] ascii_cells(
                data,
                offset,
                k,
                AsciiStyle::Spaced,
            )[spaced_position(data, offset, i) + t] == ascii_cell(
                data,
                offset + i,
                AsciiStyle::Spaced,
            )[t],
        forall|i: nat, j: nat|
            #![trigger spaced_position(data, offset, i), spaced_position(data, offset, j)]
            i <= j <= k ==> spaced_position(data, offset, i) <= spaced_position(data, offset, j),
    decreases k,
{
    if k > 0 {
        let m: nat = (k - 1) as nat;
        lemma_spaced_ascii_cells_index(data, offset, m);
        let prev: Seq<u8> = ascii_cells(data, offset, m, AsciiStyle::Spaced);
        let last: Seq<u8> = ascii_cell(data, offset + m, AsciiStyle::Spaced);
        let whole: Seq<u8> = ascii_cells(data, offset, k, AsciiStyle::Spaced);
        assert(whole == prev + last);
        assert(last.len() == spaced_width(data, offset + m));
        assert(spaced_position(data, offset, k) == spaced_position(data, offset, m) + spaced_width(
            data,
            offset + m,
        ));
        assert forall|i: nat, t: int|
            i < k && 0 <= t < spaced_width(data, offset + i) implies #[trigger] whole[spaced_position(
            data,
            offset,
            i,
        ) + t] == ascii_cell(data, offset + i, AsciiStyle::Spaced)[t] by {
            lemma_spaced_position_bounds(data, offset, i);
            if i < m {
                let n1: nat = i + 1;
                assert(spaced_position(data, offset, n1) == spaced_position(data, offset, i)
                    + spaced_width(data, offset + i));
                assert(spaced_position(data, offset, n1) <= spaced_position(data, offset, m));
                assert(whole[spaced_position(data, offset, i) + t] == prev[spaced_position(
                    data,
                    offset,
                    i,
                ) + t]);
            } else {
                assert(whole[spaced_position(data, offset, i) + t] == last[t]);
            }
        }
        assert forall|i: nat, j: nat|
            #![trigger spaced_position(data, offset, i), spaced_position(data, offset, j)]
            i <= j <= k implies spaced_position(data, offset, i) <= spaced_position(
            data,
            offset,
            j,
        ) by {
            if j == k {
                if i < k {
                    assert(spaced_position(data, offset, i) <= spaced_position(data, offset, m));
                }
            }
        }
    }
}

/// In the spaced style, the character column of a row whose offset is
/// below `0x10000` starts at column 59 and holds, for each of the sixteen
/// positions in order, the byte itself followed by a space when it is a
/// visible ASCII character (0x21 to 0x7e), a '.' for any other byte, and a
/// space past the end of the data; the row then ends in " |" and a line feed.
pub proof fn lemma_spaced_row_characters(data: Seq<u8>, offset: nat)
    requires
        offset < 0x10000,
    ensures
        row(data, offset, AsciiStyle::Spaced).len() == 62 + spaced_position(
            data,
            offset as int,
            16,
        ),
        forall|i: nat|
            #![trigger spaced_position(data, offset as int, i)]
            i < 16 ==> row(data, offset, AsciiStyle::Spaced)[59 + spaced_position(
                data,
                offset as int,
                i,
            )] == (if offset + i < data.len() {
                if 0x21 <= data[offset + i as int] <= 0x7e {
                    data[offset + i as int]
                } else {
                    0x2eu8
                }
            } else {
                0x20u8
            }),
        forall|i: nat|
            #![trigger spaced_position(data, offset as int, i)]
            i < 16 && offset + i < data.len() && 0x21 <= data[offset + i as int] <= 0x7e ==> row(
                data,
                offset,
                AsciiStyle::Spaced,
            )[60 + spaced_position(data, offset as int, i)] == 0x20,
{
    let r: Seq<u8> = row(data, offset, AsciiStyle::Spaced);
    let chars: Seq<u8> = ascii_cells(data, offset as int, 16, AsciiStyle::Spaced);
    lemma_hex_padded_reads_back(offset);
    lemma_hex_cells_index(data, offset as int, 16);
    lemma_spaced_ascii_cells_index(data, offset as int, 16);
    let b: Seq<u8> = seq![BAR, SPACE] + hex_padded(offset, 4) + seq![SPACE, BAR, SPACE]
        + hex_cells(data, offset as int, 16) + seq![BAR, SPACE];
    assert(b.len() == 59);
    assert(r == b + chars + seq![SPACE, BAR, NEWLINE]);
    assert forall|i: nat| #![trigger spaced_position(data, offset as int, i)] i < 16 implies r[59 + spaced_position(
        data,
        offset as int,
        i,
    )] == (if offset + i < data.len() {
        if 0x21 <= data[offset + i as int] <= 0x7e {
            data[offset + i as int]
        } else {
            0x2eu8
        }
    } else {
        0x20u8
    }) && (offset + i < data.len() && 0x21 <= data[offset + i as int] <= 0x7e ==> r[60
        + spaced_position(data, offset as int, i)] == 0x20) by {
        let q: int = spaced_position(data, offset as int, i);
        lemma_spaced_position_bounds(data, offset as int, i);
        assert(spaced_position(data, offset as int, i + 1) <= spaced_position(
            data,
            offset as int,
            16,
        ));
        assert(r[59 + q] == chars[q + 0]);
        if spaced_width(data, offset + i as int) == 2 {
            assert(r[60 + q] == chars[q + 1]);
        }
    }
}

} // verus!
