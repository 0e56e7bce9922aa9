use vstd::prelude::*;
use vstd::string::StringExecFns;

use crate::canvas::Canvas;

verus! {

/// The longest line that the pixel data may have, in characters.
pub const MAX_LINE_LEN: usize = 70;

/// A pixel whose three channels are already on the 0 to 255 scale of the
/// encoding.
#[derive(Clone, Copy, Debug, PartialEq, Eq, Structural)]
pub struct Rgb8 {
    pub r: u8,
    pub g: u8,
    pub b: u8,
}

/// The character of decimal digit `d`.
pub open spec fn digit_char(d: nat) -> char {
    (d + 48) as char
}

/// The decimal form of `n`, without sign or leading zeros.
pub open spec fn dec(n: nat) -> Seq<char>
    decreases n,
{
    if n < 10 {
        seq![digit_char(n)]
    } else {
        dec(n / 10).push(digit_char(n % 10))
    }
}

/// Each line followed by a newline, all of them in order.
pub open spec fn unlines(lines: Seq<Seq<char>>) -> Seq<char>
    decreases lines.len(),
{
    if lines.len() == 0 {
        Seq::empty()
    } else {
        unlines(lines.drop_last()) + lines.last() + seq!['\n']
    }
}

/// Channel `k` of pixel `p`: red, green, then blue.
pub open spec fn channel(p: Rgb8, k: int) -> nat {
    if k == 0 {
        p.r as nat
    } else if k == 1 {
        p.g as nat
    } else {
        p.b as nat
    }
}

/// The decimal values of the first `w` pixels of `row`, three per pixel.
pub open spec fn row_values(row: Seq<Rgb8>, w: nat) -> Seq<Seq<char>> {
    Seq::new(3 * w, |i: int| dec(channel(row[i / 3], i % 3)))
}

/// Whether adding value `t` to the line `cur` being filled ends that line
/// first, because the value would not fit behind a space.
pub open spec fn closes_line(cur: Seq<char>, t: Seq<char>) -> bool {
    cur.len() != 0 && cur.len() + 1 + t.len() > MAX_LINE_LEN
}

/// The line being filled after value `t` is added to `cur`.
pub open spec fn next_line(cur: Seq<char>, t: Seq<char>) -> Seq<char> {
    if cur.len() == 0 || closes_line(cur, t) {
        t
    } else {
        cur + seq![' '] + t
    }
}

/// The finished line, if any, that adding value `t` to `cur` gives.
pub open spec fn emitted(cur: Seq<char>, t: Seq<char>) -> Seq<Seq<char>> {
    if closes_line(cur, t) {
        seq![cur]
    } else {
        Seq::empty()
    }
}

/// The lines that the values `vals` fill, greedily and separated by single
/// spaces, when the line `cur` has been started already.
pub open spec fn wrap(cur: Seq<char>, vals: Seq<Seq<char>>) -> Seq<Seq<char>>
    decreases vals.len(),
{
    if vals.len() == 0 {
        if cur.len() == 0 {
            Seq::empty()
        } else {
            seq![cur]
        }
    } else {
        emitted(cur, vals[0]) + wrap(next_line(cur, vals[0]), vals.drop_first())
    }
}

/// The pixel data lines of the rows of a canvas `w` pixels wide: each row
/// starts a new line.
pub open spec fn pixel_lines(rows: Seq<Seq<Rgb8>>, w: nat) -> Seq<Seq<char>>
    decreases rows.len(),
{
    if rows.len() == 0 {
        Seq::empty()
    } else {
        pixel_lines(rows.drop_last(), w) + wrap(Seq::empty(), row_values(rows.last(), w))
    }
}

/// The three header lines: the format tag, the size, the largest channel value.
pub open spec fn header_lines(w: nat, h: nat) -> Seq<Seq<char>> {
    seq![seq!['P', '3'], dec(w) + seq![' '] + dec(h), seq!['2', '5', '5']]
}

/// All lines of the encoding of the canvas whose view is `rows` and whose
/// width is `w`.
pub open spec fn ppm_lines(rows: Seq<Seq<Rgb8>>, w: nat) -> Seq<Seq<char>> {
    header_lines(w, rows.len()) + pixel_lines(rows, w)
}

/// The text of the encoding.
pub open spec fn ppm_text(rows: Seq<Seq<Rgb8>>, w: nat) -> Seq<char> {
    unlines(ppm_lines(rows, w))
}

/// The encoding of `canvas` in the plain-text pixel format: a header of three
/// lines, then the channel values of each row in decimal, separated by
/// spaces and wrapped so that no line exceeds `MAX_LINE_LEN` characters, each
/// line ending with a newline.
pub fn canvas_to_ppm(canvas: &Canvas<Rgb8>) -> (text: String)
    ensures
        text@ == ppm_text(canvas@, canvas.width()),
{
    let w = canvas.w();
    let h = canvas.h();
    let mut out = String::new();
    let ghost mut lines: Seq<Seq<char>> = Seq::empty();
    proof {
        reveal_strlit("P3");
        reveal_strlit("255");
        reveal_strlit(" ");
        assert(out@ =~= unlines(lines));
        assert("P3"@ =~= seq!['P', '3']);
        assert("255"@ =~= seq!['2', '5', '5']);
        assert(" "@ =~= seq![' ']);
    }
    push_line(&mut out, "P3", Ghost(lines));
    proof {
        lines = lines.push(seq!['P', '3']);
    }
    let mut size = String::new();
    push_decimal(&mut size, w);
    size.append(" ");
    push_decimal(&mut size, h);
    proof {
        assert(size@ =~= dec(w as nat) + seq![' '] + dec(h as nat));
    }
    push_line(&mut out, size.as_str(), Ghost(lines));
    proof {
        lines = lines.push(size@);
    }
    push_line(&mut out, "255", Ghost(lines));
    proof {
        lines = lines.push(seq!['2', '5', '5']);
        assert(lines =~= header_lines(w as nat, h as nat));
        assert(pixel_lines(canvas@.take(0), w as nat) =~= Seq::<Seq<char>>::empty());
        assert(lines =~= header_lines(w as nat, h as nat) + pixel_lines(
            canvas@.take(0),
            w as nat,
        ));
    }
    let mut y: usize = 0;
    while y < h
        invariant
            w == canvas.width(),
            h == canvas@.len(),
            y <= h,
            out@ == unlines(lines),
            lines == header_lines(w as nat, h as nat) + pixel_lines(canvas@.take(y as int), w as nat),
        decreases h - y,
    {
        let ghost before = lines;
        let ghost row = canvas@[y as int];
        let ghost vals = row_values(row, w as nat);
        let mut cur = String::new();
        let mut cur_len: usize = 0;
        let ghost mut row_lines: Seq<Seq<char>> = Seq::empty();
        proof {
            assert(vals.skip(0) =~= vals);
        }
        let mut x: usize = 0;
        while x < w
            invariant
                w == canvas.width(),
                h == canvas@.len(),
                y < h,
                x <= w,
                row == canvas@[y as int],
                vals == row_values(row, w as nat),
                cur_len == cur@.len(),
                cur_len <= MAX_LINE_LEN,
                out@ == unlines(before + row_lines),
                row_lines + wrap(cur@, vals.skip(3 * x)) == wrap(Seq::empty(), vals),
            decreases w - x,
        {
            let p = canvas.px(x, y);
            let ghost j = 3 * x as int;
            proof {
                lemma_value_at(row, w as nat, x as int, 0);
                lemma_advance(before, row_lines, cur@, vals, j);
                row_lines = row_lines + emitted(cur@, vals[j]);
            }
            add_value(&mut out, &mut cur, &mut cur_len, p.r);
            proof {
                lemma_value_at(row, w as nat, x as int, 1);
                lemma_advance(before, row_lines, cur@, vals, j + 1);
                row_lines = row_lines + emitted(cur@, vals[j + 1]);
            }
            add_value(&mut out, &mut cur, &mut cur_len, p.g);
            proof {
                lemma_value_at(row, w as nat, x as int, 2);
                lemma_advance(before, row_lines, cur@, vals, j + 2);
                row_lines = row_lines + emitted(cur@, vals[j + 2]);
            }
            add_value(&mut out, &mut cur, &mut cur_len, p.b);
            proof {
                assert(3 * (x + 1) == j + 3);
            }
            x = x + 1;
        }
        proof {
            assert(vals.skip(3 * w as int) =~= Seq::<Seq<char>>::empty());
        }
        if cur_len > 0 {
            push_line(&mut out, cur.as_str(), Ghost(before + row_lines));
            proof {
                row_lines = row_lines.push(cur@);
                assert((before + row_lines.drop_last()).push(cur@) =~= before + row_lines);
            }
        }
        proof {
            assert(row_lines == wrap(Seq::empty(), vals));
            assert(canvas@.take(y + 1).drop_last() =~= canvas@.take(y as int));
            assert(canvas@.take(y + 1).last() == row);
            lines = before + row_lines;
            assert(lines =~= header_lines(w as nat, h as nat) + pixel_lines(
                canvas@.take(y + 1),
                w as nat,
            ));
        }
        y = y + 1;
    }
    proof {
        assert(canvas@.take(h as int) =~= canvas@);
    }
    out
}

/// A line that fits the format: at most `MAX_LINE_LEN` characters, none of
/// them a newline.
pub open spec fn line_fits(line: Seq<char>) -> bool {
    &&& line.len() <= MAX_LINE_LEN
    &&& forall|k: int| 0 <= k < line.len() ==> #[trigger] line[k] != '\n'
}

/// Whatever the canvas, its encoding is the header text followed by the
/// pixel data text, it ends with a newline, and every line of pixel data fits
/// in `MAX_LINE_LEN` characters.
pub proof fn lemma_ppm_shape(canvas: Canvas<Rgb8>)
    ensures
        ppm_text(canvas@, canvas.width()) == seq!['P', '3', '\n'] + dec(canvas.width()) + seq![' ']
            + dec(canvas@.len()) + seq!['\n', '2', '5', '5', '\n'] + unlines(
            pixel_lines(canvas@, canvas.width()),
        ),
        ppm_text(canvas@, canvas.width()).len() > 0,
        ppm_text(canvas@, canvas.width()).last() == '\n',
        forall|i: int|
            0 <= i < pixel_lines(canvas@, canvas.width()).len() ==> line_fits(
                #[trigger] pixel_lines(canvas@, canvas.width())[i],
            ),
{
    let w = canvas.width();
    let rows = canvas@;
    let head = header_lines(w, rows.len());
    let body = pixel_lines(rows, w);
    lemma_unlines_extend(head, body);
    assert(head.drop_last().drop_last().drop_last() =~= Seq::<Seq<char>>::empty());
    assert(unlines(head) =~= seq!['P', '3', '\n'] + dec(w) + seq![' '] + dec(rows.len()) + seq![
        '\n',
        '2',
        '5',
        '5',
        '\n',
    ]) by {
        assert(head.drop_last().drop_last().last() == seq!['P', '3']);
        assert(head.drop_last().last() == dec(w) + seq![' '] + dec(rows.len()));
        assert(unlines(head.drop_last().drop_last().drop_last()) =~= Seq::<char>::empty());
        assert(unlines(head.drop_last().drop_last()) =~= seq!['P', '3', '\n']);
        assert(unlines(head.drop_last()) =~= seq!['P', '3', '\n'] + dec(w) + seq![' '] + dec(
            rows.len(),
        ) + seq!['\n']);
        assert(head.last() == seq!['2', '5', '5']);
    }
    assert(ppm_text(rows, w) =~= unlines(head) + unlines(body));
    lemma_unlines_last(body);
    lemma_pixel_lines_fit(rows, w);
}

/// The text of lines, when there are any, ends with a newline.
proof fn lemma_unlines_last(lines: Seq<Seq<char>>)
    ensures
        lines.len() > 0 ==> unlines(lines).last() == '\n',
        lines.len() > 0 ==> unlines(lines).len() > 0,
{
}

/// Each digit of a decimal form is a digit character, so no newline, and a
/// channel value has at most three of them.
proof fn lemma_dec_fits(n: nat)
    requires
        n < 1000,
    ensures
        line_fits(dec(n)),
{
    lemma_dec_len_small(n);
    lemma_dec_digits(n);
}

/// Every character of a decimal form is between '0' and '9'.
proof fn lemma_dec_digits(n: nat)
    ensures
        forall|k: int| 0 <= k < dec(n).len() ==> '0' <= #[trigger] dec(n)[k] <= '9',
    decreases n,
{
    if n >= 10 {
        lemma_dec_digits(n / 10);
        let d = dec(n);
        assert(d == dec(n / 10).push(digit_char(n % 10)));
        assert forall|k: int| 0 <= k < d.len() implies '0' <= #[trigger] d[k] <= '9' by {
            if k < d.len() - 1 {
                assert(d[k] == dec(n / 10)[k]);
            }
        }
    }
}

/// Wrapping values that fit, starting from a line that fits, gives only
/// lines that fit.
proof fn lemma_wrap_fits(cur: Seq<char>, vals: Seq<Seq<char>>)
    requires
        line_fits(cur),
        forall|i: int| 0 <= i < vals.len() ==> line_fits(#[trigger] vals[i]),
    ensures
        forall|i: int| 0 <= i < wrap(cur, vals).len() ==> line_fits(#[trigger] wrap(cur, vals)[i]),
    decreases vals.len(),
{
    if vals.len() > 0 {
        let t = vals[0];
        let next = next_line(cur, t);
        assert(line_fits(t));
        if !(cur.len() == 0 || closes_line(cur, t)) {
            assert forall|k: int| 0 <= k < next.len() implies #[trigger] next[k] != '\n' by {
                if k < cur.len() {
                    assert(next[k] == cur[k]);
                } else if k > cur.len() {
                    assert(next[k] == t[k - cur.len() - 1]);
                }
            }
        }
        assert forall|i: int| 0 <= i < vals.drop_first().len() implies line_fits(
            #[trigger] vals.drop_first()[i],
        ) by {
            assert(vals.drop_first()[i] == vals[i + 1]);
        }
        lemma_wrap_fits(next, vals.drop_first());
        let e = emitted(cur, t);
        let rest = wrap(next, vals.drop_first());
        assert forall|i: int| 0 <= i < wrap(cur, vals).len() implies line_fits(
            #[trigger] wrap(cur, vals)[i],
        ) by {
            if i >= e.len() {
                assert(wrap(cur, vals)[i] == rest[i - e.len()]);
            }
        }
    }
}

/// Every line of pixel data fits.
proof fn lemma_pixel_lines_fit(rows: Seq<Seq<Rgb8>>, w: nat)
    ensures
        forall|i: int|
            0 <= i < pixel_lines(rows, w).len() ==> line_fits(#[trigger] pixel_lines(rows, w)[i]),
    decreases rows.len(),
{
    if rows.len() > 0 {
        lemma_pixel_lines_fit(rows.drop_last(), w);
        let vals = row_values(rows.last(), w);
        assert forall|i: int| 0 <= i < vals.len() implies line_fits(#[trigger] vals[i]) by {
            let p = rows.last()[i / 3];
            lemma_dec_fits(channel(p, i % 3));
        }
        lemma_wrap_fits(Seq::empty(), vals);
        let before = pixel_lines(rows.drop_last(), w);
        let added = wrap(Seq::empty(), vals);
        assert forall|i: int| 0 <= i < pixel_lines(rows, w).len() implies line_fits(
            #[trigger] pixel_lines(rows, w)[i],
        ) by {
            if i < before.len() {
                assert(pixel_lines(rows, w)[i] == before[i]);
            } else {
                assert(pixel_lines(rows, w)[i] == added[i - before.len()]);
            }
        }
    }
}

/// Adds value `v` to the line `cur` being filled, whose length `cur_len`
/// tracks; when the value does not fit, `cur` first goes to `out` as a
/// finished line.
fn add_value(out: &mut String, cur: &mut String, cur_len: &mut usize, v: u8)
    requires
        *old(cur_len) == old(cur)@.len(),
        *old(cur_len) <= MAX_LINE_LEN,
    ensures
        final(cur)@ == next_line(old(cur)@, dec(v as nat)),
        *final(cur_len) == final(cur)@.len(),
        *final(cur_len) <= MAX_LINE_LEN,
        final(out)@ == if closes_line(old(cur)@, dec(v as nat)) {
            old(out)@ + old(cur)@ + seq!['\n']
        } else {
            old(out)@
        },
{
    let ghost t = dec(v as nat);
    let len = digit_count(v);
    if *cur_len == 0 {
        push_decimal(cur, v as usize);
        *cur_len = len;
    } else if *cur_len + 1 + len <= MAX_LINE_LEN {
        proof {
            reveal_strlit(" ");
        }
        cur.append(" ");
        push_decimal(cur, v as usize);
        *cur_len = *cur_len + 1 + len;
    } else {
        out.append(cur.as_str());
        proof {
            reveal_strlit("\n");
        }
        out.append("\n");
        let mut fresh = String::new();
        push_decimal(&mut fresh, v as usize);
        *cur = fresh;
        *cur_len = len;
    }
}

/// Appends `line` and a newline to `out`.
fn push_line(out: &mut String, line: &str, Ghost(lines): Ghost<Seq<Seq<char>>>)
    requires
        old(out)@ == unlines(lines),
    ensures
        final(out)@ == unlines(lines.push(line@)),
{
    out.append(line);
    proof {
        reveal_strlit("\n");
    }
    out.append("\n");
    proof {
        assert(lines.push(line@).drop_last() =~= lines);
    }
}

/// Appends the decimal form of `n` to `out`.
fn push_decimal(out: &mut String, n: usize)
    ensures
        final(out)@ == old(out)@ + dec(n as nat),
    decreases n,
{
    if n >= 10 {
        push_decimal(out, n / 10);
    }
    out.append(digit_str(n % 10));
    proof {
        assert(old(out)@ + dec(n as nat) =~= if n >= 10 {
            old(out)@ + dec((n / 10) as nat) + seq![digit_char((n % 10) as nat)]
        } else {
            old(out)@ + seq![digit_char((n % 10) as nat)]
        });
    }
}

/// The one-character text of decimal digit `d`.
fn digit_str(d: usize) -> (s: &'static str)
    requires
        d < 10,
    ensures
        s@ == seq![digit_char(d as nat)],
{
    proof {
        reveal_strlit("0");
        reveal_strlit("1");
        reveal_strlit("2");
        reveal_strlit("3");
        reveal_strlit("4");
        reveal_strlit("5");
        reveal_strlit("6");
        reveal_strlit("7");
        reveal_strlit("8");
        reveal_strlit("9");
    }
    if d == 0 {
        "0"
    } else if d == 1 {
        "1"
    } else if d == 2 {
        "2"
    } else if d == 3 {
        "3"
    } else if d == 4 {
        "4"
    } else if d == 5 {
        "5"
    } else if d == 6 {
        "6"
    } else if d == 7 {
        "7"
    } else if d == 8 {
        "8"
    } else {
        "9"
    }
}

/// The number of decimal digits of `v`.
fn digit_count(v: u8) -> (n: usize)
    ensures
        n == dec(v as nat).len(),
        1 <= n <= 3,
{
    proof {
        lemma_dec_len_small(v as nat);
    }
    if v < 10 {
        1
    } else if v < 100 {
        2
    } else {
        3
    }
}

/// A number below 1000 has one digit below 10, two below 100, else three.
proof fn lemma_dec_len_small(n: nat)
    requires
        n < 1000,
    ensures
        dec(n).len() == if n < 10 {
            1nat
        } else if n < 100 {
            2nat
        } else {
            3nat
        },
{
    if n >= 10 {
        assert(dec(n) == dec(n / 10).push(digit_char(n % 10)));
        if n / 10 >= 10 {
            assert(dec(n / 10) == dec(n / 10 / 10).push(digit_char(n / 10 % 10)));
            assert(n / 10 / 10 < 10);
        }
    }
}

/// Value `3 * x + k` of a row is channel `k` of pixel `x`.
proof fn lemma_value_at(row: Seq<Rgb8>, w: nat, x: int, k: int)
    requires
        0 <= x < w,
        0 <= k < 3,
    ensures
        row_values(row, w)[3 * x + k] == dec(channel(row[x], k)),
        3 * x + k < row_values(row, w).len(),
{
    vstd::arithmetic::div_mod::lemma_fundamental_div_mod_converse(3 * x + k, 3, x, k);
}

/// Adding value `j` of `vals` to the line `cur` moves the line it finishes,
/// if any, from what is left to wrap to what is written.
proof fn lemma_advance(
    before: Seq<Seq<char>>,
    done: Seq<Seq<char>>,
    cur: Seq<char>,
    vals: Seq<Seq<char>>,
    j: int,
)
    requires
        0 <= j < vals.len(),
    ensures
        done + wrap(cur, vals.skip(j)) == (done + emitted(cur, vals[j])) + wrap(
            next_line(cur, vals[j]),
            vals.skip(j + 1),
        ),
        unlines(before + (done + emitted(cur, vals[j]))) == unlines(before + done) + (if closes_line(cur, vals[j]) {
            cur + seq!['\n']
        } else {
            Seq::empty()
        }),
{
    let e = emitted(cur, vals[j]);
    assert(vals.skip(j)[0] == vals[j]);
    assert(vals.skip(j).drop_first() =~= vals.skip(j + 1));
    assert(done + wrap(cur, vals.skip(j)) =~= (done + e) + wrap(next_line(cur, vals[j]), vals.skip(j + 1)));
    lemma_unlines_extend(before + done, e);
    assert(before + (done + e) =~= (before + done) + e);
    if closes_line(cur, vals[j]) {
        assert(e.drop_last() =~= Seq::<Seq<char>>::empty());
        assert(unlines(e.drop_last()) =~= Seq::<char>::empty());
        assert(e.last() == cur);
        assert(unlines(e) =~= cur + seq!['\n']);
    } else {
        assert(unlines(e) =~= Seq::<char>::empty());
    }
}

/// Writing out more lines extends the text by their text.
proof fn lemma_unlines_extend(lines: Seq<Seq<char>>, more: Seq<Seq<char>>)
    ensures
        unlines(lines + more) == unlines(lines) + unlines(more),
    decreases more.len(),
{
    if more.len() == 0 {
        assert(lines + more =~= lines);
        assert(unlines(lines) + unlines(more) =~= unlines(lines));
    } else {
        lemma_unlines_extend(lines, more.drop_last());
        assert((lines + more).drop_last() =~= lines + more.drop_last());
        assert((lines + more).last() == more.last());
        assert(unlines(lines + more) =~= unlines(lines) + unlines(more));
    }
}

} // verus!
