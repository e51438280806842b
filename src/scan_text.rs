use vstd::prelude::*;

use crate::bindings::{chars_of, string_from_chars};
use crate::classification::ColorPoint;
use crate::constants::NUM_FACELETS;
use crate::cube::{notation_of, samples_in_place, Cube};

verus! {

/// Why a scan text was refused.
#[derive(Clone, Copy, Debug, PartialEq, Eq, Structural)]
pub enum ScanError {
    /// The line (counted from zero) is neither blank nor three numbers.
    MalformedLine(usize),
    /// A non-blank line beyond the last facelet.
    TooManyLines(usize),
    /// The samples stop (the text ends, or a blank line comes) after this many lines,
    /// before every facelet has one.
    TooFewSamples(usize),
}

pub open spec fn is_digit(c: char) -> bool {
    '0' <= c <= '9'
}

pub open spec fn digit_value(c: char) -> int {
    c as int - '0' as int
}

pub open spec fn all_digits(s: Seq<char>) -> bool {
    forall|i: int| 0 <= i < s.len() ==> is_digit(#[trigger] s[i])
}

/// The number a string of decimal digits denotes.
pub open spec fn digits_value(s: Seq<char>) -> int
    decreases s.len(),
{
    if s.len() == 0 {
        0
    } else {
        digits_value(s.drop_last()) * 10 + digit_value(s.last())
    }
}

/// The first position at or after `i` that holds `c`, or the length.
pub open spec fn find_char(s: Seq<char>, c: char, i: int) -> int
    decreases s.len() - i,
{
    if i < 0 || i >= s.len() {
        s.len() as int
    } else if s[i] == c {
        i
    } else {
        find_char(s, c, i + 1)
    }
}

/// The first three digits of a fraction, padded with zeros, as thousandths.
pub open spec fn thousandths(f: Seq<char>) -> int {
    digits_value((f + seq!['0', '0', '0']).take(3))
}

/// A fixed-point number written `digits` or `digits.digits`; fraction digits beyond the
/// third are dropped. `None` when malformed or above `u32::MAX` thousandths.
pub open spec fn parse_number(s: Seq<char>) -> Option<u32> {
    let dot = find_char(s, '.', 0);
    let int_part = s.take(dot);
    let frac = if dot < s.len() {
        s.skip(dot + 1)
    } else {
        seq![]
    };
    if int_part.len() >= 1 && all_digits(int_part) && (dot >= s.len() || (frac.len() >= 1
        && all_digits(frac))) {
        let v = digits_value(int_part) * 1000 + thousandths(frac);
        if v <= u32::MAX {
            Some(v as u32)
        } else {
            None
        }
    } else {
        None
    }
}

/// A sample line: three numbers separated by `", "`.
pub open spec fn parse_line(l: Seq<char>) -> Option<(u32, u32, u32)> {
    let c1 = find_char(l, ',', 0);
    let c2 = find_char(l, ',', c1 + 1);
    if c1 + 1 < l.len() && l[c1 + 1] == ' ' && c2 + 1 < l.len() && l[c2 + 1] == ' ' {
        match (
            parse_number(l.subrange(0, c1)),
            parse_number(l.subrange(c1 + 2, c2)),
            parse_number(l.subrange(c2 + 2, l.len() as int)),
        ) {
            (Some(r), Some(g), Some(b)) => Some((r, g, b)),
            _ => None,
        }
    } else {
        None
    }
}

pub open spec fn is_space(c: char) -> bool {
    c == ' ' || c == '\t' || c == '\r'
}

/// A line with nothing but spaces, tabs and carriage returns.
pub open spec fn is_blank(l: Seq<char>) -> bool {
    forall|i: int| 0 <= i < l.len() ==> is_space(#[trigger] l[i])
}

/// The text cut at each newline; a final newline leaves an empty last line.
pub open spec fn split_lines(t: Seq<char>) -> Seq<Seq<char>>
    decreases t.len(),
{
    let j = find_char(t, '\n', 0);
    if 0 <= j < t.len() {
        seq![t.take(j)] + split_lines(t.skip(j + 1))
    } else {
        seq![t]
    }
}

/// Reads the first `n` lines into `vals`: line `i` sets facelet `i` for the first 54 lines,
/// none of which may be blank; after them only blank lines may follow.
pub open spec fn import_lines(vals: Seq<ColorPoint>, lines: Seq<Seq<char>>, n: int) -> Result<
    Seq<ColorPoint>,
    ScanError,
>
    decreases n,
{
    if n <= 0 {
        Ok(vals)
    } else {
        match import_lines(vals, lines, n - 1) {
            Err(e) => Err(e),
            Ok(v) => {
                let l = lines[n - 1];
                let pos = n - 1;
                if pos >= NUM_FACELETS {
                    if is_blank(l) {
                        Ok(v)
                    } else {
                        Err(ScanError::TooManyLines(pos as usize))
                    }
                } else if is_blank(l) {
                    Err(ScanError::TooFewSamples(pos as usize))
                } else {
                    match parse_line(l) {
                        Some((r, g, b)) => Ok(
                            v.update(pos, ColorPoint { r, g, b, index: pos as usize }),
                        ),
                        None => Err(ScanError::MalformedLine(pos as usize)),
                    }
                }
            },
        }
    }
}

/// What reading `text` does to the samples `vals`: on success every facelet gets the
/// sample of its line, so the text alone decides the result.
pub open spec fn read_scan(vals: Seq<ColorPoint>, text: Seq<char>) -> Result<
    Seq<ColorPoint>,
    ScanError,
> {
    let lines = split_lines(text);
    match import_lines(vals, lines, lines.len() as int) {
        Ok(v) => if lines.len() < NUM_FACELETS {
            Err(ScanError::TooFewSamples(lines.len() as usize))
        } else {
            Ok(v)
        },
        Err(e) => Err(e),
    }
}

pub open spec fn digit_char(d: int) -> char {
    (d + '0' as int) as char
}

/// The decimal digits of `n`, most significant first.
pub open spec fn nat_digits(n: nat) -> Seq<char>
    decreases n,
{
    if n < 10 {
        seq![digit_char(n as int)]
    } else {
        nat_digits(n / 10).push(digit_char((n % 10) as int))
    }
}

/// A channel value written with exactly three fraction digits.
pub open spec fn fixed_text(v: u32) -> Seq<char> {
    let f = (v % 1000) as int;
    nat_digits((v / 1000) as nat) + seq![
        '.',
        digit_char(f / 100),
        digit_char((f / 10) % 10),
        digit_char(f % 10),
    ]
}

/// A sample's line, without its newline: `"<r>, <g>, <b>"`.
pub open spec fn line_text(p: ColorPoint) -> Seq<char> {
    fixed_text(p.r) + seq![',', ' '] + fixed_text(p.g) + seq![',', ' '] + fixed_text(p.b)
}

/// The samples from position `k` on, one line each.
pub open spec fn export_from(vals: Seq<ColorPoint>, k: int) -> Seq<char>
    decreases vals.len() - k,
{
    if k < 0 || k >= vals.len() {
        seq![]
    } else {
        line_text(vals[k]) + seq!['\n'] + export_from(vals, k + 1)
    }
}

proof fn lemma_nat_digits(n: nat)
    ensures
        nat_digits(n).len() >= 1,
        all_digits(nat_digits(n)),
        digits_value(nat_digits(n)) == n,
    decreases n,
{
    if n >= 10 {
        lemma_nat_digits(n / 10);
        let d = nat_digits(n);
        assert(d.drop_last() =~= nat_digits(n / 10));
        assert(digits_value(d) == digits_value(d.drop_last()) * 10 + digit_value(d.last()));
        assert(digit_value(d.last()) == n % 10);
        vstd::arithmetic::div_mod::lemma_fundamental_div_mod(n as int, 10);
        assert forall|i: int| 0 <= i < d.len() implies is_digit(#[trigger] d[i]) by {
            if i < d.len() - 1 {
                assert(d[i] == nat_digits(n / 10)[i]);
            }
        }
    } else {
        let d = nat_digits(n);
        assert(d.drop_last() =~= Seq::<char>::empty());
        assert(digits_value(Seq::<char>::empty()) == 0);
        assert(digits_value(d) == digits_value(d.drop_last()) * 10 + digit_value(d.last()));
    }
}

/// `find_char` lands on `j` when `c` first occurs there at or after `i`.
proof fn lemma_find_char_at(s: Seq<char>, c: char, i: int, j: int)
    requires
        0 <= i <= j <= s.len(),
        j < s.len() ==> s[j] == c,
        forall|k: int| i <= k < j ==> s[k] != c,
    ensures
        find_char(s, c, i) == j,
    decreases j - i,
{
    if i < j {
        lemma_find_char_at(s, c, i + 1, j);
    }
}

proof fn lemma_digits_value3(a: char, b: char, c: char)
    ensures
        digits_value(seq![a, b, c]) == digit_value(a) * 100 + digit_value(b) * 10 + digit_value(c),
{
    let s = seq![a, b, c];
    assert(s.drop_last() =~= seq![a, b]);
    assert(seq![a, b].drop_last() =~= seq![a]);
    assert(seq![a].drop_last() =~= Seq::<char>::empty());
    assert(digits_value(Seq::<char>::empty()) == 0);
    assert(digits_value(seq![a]) == digit_value(a));
    assert(digits_value(seq![a, b]) == digit_value(a) * 10 + digit_value(b));
    assert(digits_value(s) == digits_value(seq![a, b]) * 10 + digit_value(c));
}

proof fn lemma_parse_fixed(v: u32)
    ensures
        parse_number(fixed_text(v)) == Some(v),
        all_digits(fixed_text(v).take(1)),
        forall|i: int|
            0 <= i < fixed_text(v).len() ==> #[trigger] fixed_text(v)[i] != ',' && fixed_text(v)[i]
                != '\n' && fixed_text(v)[i] != ' ',
{
    let n = (v / 1000) as nat;
    let f = (v % 1000) as int;
    let d = nat_digits(n);
    lemma_nat_digits(n);
    let tail = seq!['.', digit_char(f / 100), digit_char((f / 10) % 10), digit_char(f % 10)];
    let s = fixed_text(v);
    assert(s == d + tail);
    assert forall|k: int| 0 <= k < d.len() implies s[k] != '.' by {
        assert(s[k] == d[k]);
        assert(is_digit(d[k]));
    }
    lemma_find_char_at(s, '.', 0, d.len() as int);
    assert(s.take(d.len() as int) =~= d);
    let frac = s.skip(d.len() as int + 1);
    assert(frac =~= seq![digit_char(f / 100), digit_char((f / 10) % 10), digit_char(f % 10)]);
    assert((frac + seq!['0', '0', '0']).take(3) =~= frac);
    lemma_digits_value3(digit_char(f / 100), digit_char((f / 10) % 10), digit_char(f % 10));
    assert(thousandths(frac) == f);
    assert(all_digits(frac));
    assert(s.take(1) =~= d.take(1));
    assert forall|i: int| 0 <= i < s.len() implies #[trigger] s[i] != ',' && s[i] != '\n' && s[i]
        != ' ' by {
        if i < d.len() {
            assert(s[i] == d[i]);
            assert(is_digit(d[i]));
        } else {
            assert(s[i] == tail[i - d.len()]);
        }
    }
}

proof fn lemma_parse_line_text(p: ColorPoint)
    ensures
        parse_line(line_text(p)) == Some((p.r, p.g, p.b)),
        !is_blank(line_text(p)),
        forall|i: int| 0 <= i < line_text(p).len() ==> #[trigger] line_text(p)[i] != '\n',
{
    let fr = fixed_text(p.r);
    let fg = fixed_text(p.g);
    let fb = fixed_text(p.b);
    lemma_parse_fixed(p.r);
    lemma_parse_fixed(p.g);
    lemma_parse_fixed(p.b);
    let l = line_text(p);
    let sep = seq![',', ' '];
    assert(l == fr + sep + fg + sep + fb);
    let c1 = fr.len() as int;
    let c2 = c1 + 2 + fg.len();
    assert forall|k: int| 0 <= k < c1 implies l[k] != ',' by {
        assert(l[k] == fr[k]);
    }
    assert(l[c1] == ',');
    lemma_find_char_at(l, ',', 0, c1);
    assert forall|k: int| c1 + 1 <= k < c2 implies l[k] != ',' by {
        if k > c1 + 1 {
            assert(l[k] == fg[k - c1 - 2]);
        }
    }
    assert(l[c2] == ',');
    lemma_find_char_at(l, ',', c1 + 1, c2);
    assert(l.subrange(0, c1) =~= fr);
    assert(l.subrange(c1 + 2, c2) =~= fg);
    assert(l.subrange(c2 + 2, l.len() as int) =~= fb);
    assert(l[0] == fr[0]);
    assert(fr.take(1)[0] == fr[0]);
    assert forall|i: int| 0 <= i < l.len() implies #[trigger] l[i] != '\n' by {
        if i < c1 {
            assert(l[i] == fr[i]);
        } else if i < c1 + 2 {
        } else if i < c2 {
            assert(l[i] == fg[i - c1 - 2]);
        } else if i < c2 + 2 {
        } else {
            assert(l[i] == fb[i - c2 - 2]);
        }
    }
}

/// The lines of the export text from position `k`: one per sample, then an empty one.
pub open spec fn exported_lines(vals: Seq<ColorPoint>, k: int) -> Seq<Seq<char>> {
    Seq::new((vals.len() - k) as nat, |i: int| line_text(vals[k + i])) + seq![Seq::<char>::empty()]
}

proof fn lemma_split_export(vals: Seq<ColorPoint>, k: int)
    requires
        0 <= k <= vals.len(),
    ensures
        split_lines(export_from(vals, k)) == exported_lines(vals, k),
    decreases vals.len() - k,
{
    let t = export_from(vals, k);
    if k == vals.len() {
        assert(t =~= Seq::<char>::empty());
        assert(split_lines(t) =~= seq![Seq::<char>::empty()]);
        assert(exported_lines(vals, k) =~= seq![Seq::<char>::empty()]);
    } else {
        lemma_split_export(vals, k + 1);
        let l = line_text(vals[k]);
        lemma_parse_line_text(vals[k]);
        let rest = export_from(vals, k + 1);
        assert(t == l + seq!['\n'] + rest);
        assert forall|i: int| 0 <= i < l.len() implies t[i] != '\n' by {
            assert(t[i] == l[i]);
        }
        lemma_find_char_at(t, '\n', 0, l.len() as int);
        assert(t.take(l.len() as int) =~= l);
        assert(t.skip(l.len() as int + 1) =~= rest);
        assert(split_lines(t) == seq![l] + split_lines(rest));
        assert(exported_lines(vals, k) =~= seq![l] + exported_lines(vals, k + 1));
    }
}

/// The samples `base` with the first `n` replaced by those of `vals`, each at its position.
pub open spec fn replaced_upto(base: Seq<ColorPoint>, vals: Seq<ColorPoint>, n: int) -> Seq<ColorPoint> {
    Seq::new(
        base.len(),
        |i: int|
            if i < n {
                ColorPoint { r: vals[i].r, g: vals[i].g, b: vals[i].b, index: i as usize }
            } else {
                base[i]
            },
    )
}

proof fn lemma_import_exported(base: Seq<ColorPoint>, vals: Seq<ColorPoint>, n: int)
    requires
        base.len() == NUM_FACELETS,
        vals.len() == NUM_FACELETS,
        0 <= n <= NUM_FACELETS,
    ensures
        import_lines(base, exported_lines(vals, 0), n) == Ok::<Seq<ColorPoint>, ScanError>(
            replaced_upto(base, vals, n),
        ),
    decreases n,
{
    if n == 0 {
        assert(replaced_upto(base, vals, 0) =~= base);
    } else {
        lemma_import_exported(base, vals, n - 1);
        let lines = exported_lines(vals, 0);
        assert(lines[n - 1] == line_text(vals[n - 1]));
        lemma_parse_line_text(vals[n - 1]);
        let p = vals[n - 1];
        assert(replaced_upto(base, vals, n - 1).update(
            n - 1,
            ColorPoint { r: p.r, g: p.g, b: p.b, index: (n - 1) as usize },
        ) =~= replaced_upto(base, vals, n));
    }
}

/// Round trip: reading back the export text of samples that sit at their own positions
/// gives those samples exactly, whatever the samples were before, and so the same notation.
pub proof fn lemma_scan_round_trip(base: Seq<ColorPoint>, vals: Seq<ColorPoint>)
    requires
        base.len() == NUM_FACELETS,
        samples_in_place(vals),
    ensures
        read_scan(base, export_from(vals, 0)) == Ok::<Seq<ColorPoint>, ScanError>(vals),
        notation_of(read_scan(base, export_from(vals, 0))->Ok_0) == notation_of(vals),
{
    lemma_split_export(vals, 0);
    let lines = exported_lines(vals, 0);
    assert(lines.len() == NUM_FACELETS + 1);
    lemma_import_exported(base, vals, NUM_FACELETS as int);
    assert(lines[NUM_FACELETS as int] =~= Seq::<char>::empty());
    assert(replaced_upto(base, vals, NUM_FACELETS as int) =~= vals);
}

fn digit_of(d: u32) -> (c: char)
    requires
        d < 10,
    ensures
        c == digit_char(d as int),
{
    ((d as u8) + 48u8) as char
}

fn push_digits(out: &mut Vec<char>, n: u32)
    ensures
        final(out)@ == old(out)@ + nat_digits(n as nat),
    decreases n,
{
    if n >= 10 {
        push_digits(out, n / 10);
    }
    let ghost mid = out@;
    out.push(digit_of(n % 10));
    proof {
        if n >= 10 {
            assert(nat_digits(n as nat) == nat_digits((n / 10) as nat).push(digit_char((n % 10) as int)));
        }
    }
    assert(out@ =~= old(out)@ + nat_digits(n as nat));
}

fn push_fixed(out: &mut Vec<char>, v: u32)
    ensures
        final(out)@ == old(out)@ + fixed_text(v),
{
    push_digits(out, v / 1000);
    let f = v % 1000;
    out.push('.');
    out.push(digit_of(f / 100));
    out.push(digit_of((f / 10) % 10));
    out.push(digit_of(f % 10));
    assert(out@ =~= old(out)@ + fixed_text(v));
}

fn push_line(out: &mut Vec<char>, p: &ColorPoint)
    ensures
        final(out)@ == old(out)@ + line_text(*p) + seq!['\n'],
{
    push_fixed(out, p.r);
    out.push(',');
    out.push(' ');
    push_fixed(out, p.g);
    out.push(',');
    out.push(' ');
    push_fixed(out, p.b);
    out.push('\n');
    assert(out@ =~= old(out)@ + line_text(*p) + seq!['\n']);
}

/// The first position in `lo..hi`, at or after `i`, that holds `c`, or `hi`.
fn find_in(t: &Vec<char>, c: char, lo: usize, i: usize, hi: usize) -> (r: usize)
    requires
        lo <= i <= hi <= t.len(),
    ensures
        r == lo + find_char(t@.subrange(lo as int, hi as int), c, i - lo),
        i <= r <= hi,
{
    let ghost s = t@.subrange(lo as int, hi as int);
    let mut k = i;
    while k < hi && t[k] != c
        invariant
            lo <= i <= k <= hi <= t.len(),
            s == t@.subrange(lo as int, hi as int),
            find_char(s, c, i - lo) == find_char(s, c, k - lo),
        decreases hi - k,
    {
        k = k + 1;
    }
    k
}

proof fn lemma_digits_mono(s: Seq<char>, k: int, m: int)
    requires
        0 <= k <= m <= s.len(),
        all_digits(s.take(m)),
    ensures
        0 <= digits_value(s.take(k)) <= digits_value(s.take(m)),
    decreases m,
{
    if m == 0 {
        assert(s.take(0) =~= Seq::<char>::empty());
    } else {
        let k2 = if k < m {
            k
        } else {
            m - 1
        };
        assert(s.take(m).drop_last() =~= s.take(m - 1));
        assert(all_digits(s.take(m - 1))) by {
            assert forall|i: int| 0 <= i < m - 1 implies is_digit(#[trigger] s.take(m - 1)[i]) by {
                assert(s.take(m - 1)[i] == s.take(m)[i]);
            }
        }
        lemma_digits_mono(s, k2, m - 1);
        assert(is_digit(s.take(m)[m - 1]));
    }
}

fn parse_number_in(t: &Vec<char>, lo: usize, hi: usize) -> (r: Option<u32>)
    requires
        lo <= hi <= t.len(),
    ensures
        r == parse_number(t@.subrange(lo as int, hi as int)),
{
    let ghost s = t@.subrange(lo as int, hi as int);
    let dot = find_in(t, '.', lo, lo, hi);
    let ghost d = dot - lo;
    if dot == lo {
        assert(s.take(0).len() == 0);
        return None;
    }
    let mut v: u64 = 0;
    let mut k = lo;
    while k < dot
        invariant
            lo <= k <= dot <= hi <= t.len(),
            s == t@.subrange(lo as int, hi as int),
            d == dot - lo,
            d == find_char(s, '.', 0),
            all_digits(s.take(k - lo)),
            v == digits_value(s.take(k - lo)),
            v <= 4294967,
        decreases dot - k,
    {
        let c = t[k];
        if !('0' <= c && c <= '9') {
            proof {
                assert(s.take(d)[k - lo] == c);
                assert(!is_digit(s.take(d)[k - lo]));
                assert(!all_digits(s.take(d)));
            }
            return None;
        }
        proof {
            assert(s.take(k - lo + 1).drop_last() =~= s.take(k - lo));
            assert(s.take(k - lo + 1).last() == c);
            assert forall|i: int| 0 <= i < k - lo + 1 implies is_digit(#[trigger] s.take(k - lo + 1)[i]) by {
                if i < k - lo {
                    assert(s.take(k - lo + 1)[i] == s.take(k - lo)[i]);
                }
            }
        }
        v = v * 10 + (c as u64 - 48);
        k = k + 1;
        assert(v == digits_value(s.take(k - lo)));
        if v > 4294967 {
            proof {
                if all_digits(s.take(d)) {
                    lemma_digits_mono(s, k - lo, d);
                    let frac = if d < s.len() {
                        s.skip(d + 1)
                    } else {
                        seq![]
                    };
                    let padded = (frac + seq!['0', '0', '0']).take(3);
                    if all_digits(frac) {
                        assert forall|i: int| 0 <= i < padded.len() implies is_digit(
                            #[trigger] padded[i],
                        ) by {
                            if i < frac.len() {
                                assert(padded[i] == frac[i]);
                            }
                        }
                        assert(padded.take(3) =~= padded);
                        lemma_digits_mono(padded, 0, 3);
                    }
                }
            }
            return None;
        }
    }
    let mut frac: u64 = 0;
    if dot < hi {
        assert(d < s.len());
        if dot + 1 == hi {
            assert(s.skip(d + 1).len() == 0);
            return None;
        }
        let ghost f = s.skip(d + 1);
        let mut j = dot + 1;
        while j < hi
            invariant
                lo <= dot < j <= hi <= t.len(),
                s == t@.subrange(lo as int, hi as int),
                d == dot - lo,
                d == find_char(s, '.', 0),
                all_digits(s.take(d)),
                v == digits_value(s.take(d)),
                v <= 4294967,
                f == s.skip(d + 1),
                forall|i: int| 0 <= i < j - dot - 1 ==> is_digit(#[trigger] f[i]),
            decreases hi - j,
        {
            let c = t[j];
            if !('0' <= c && c <= '9') {
                assert(f[j - dot - 1] == c);
                assert(!is_digit(f[j - dot - 1]));
                assert(!all_digits(f));
                return None;
            }
            j = j + 1;
        }
        let len = hi - dot - 1;
        assert(all_digits(f));
        assert(f.len() == len);
        assert(f[0] == t@[dot + 1]);
        assert(len >= 2 ==> f[1] == t@[dot + 2]);
        assert(len >= 3 ==> f[2] == t@[dot + 3]);
        let d1: u64 = t[dot + 1] as u64 - 48;
        let d2: u64 = if len >= 2 {
            t[dot + 2] as u64 - 48
        } else {
            0
        };
        let d3: u64 = if len >= 3 {
            t[dot + 3] as u64 - 48
        } else {
            0
        };
        proof {
            let padded = (f + seq!['0', '0', '0']).take(3);
            assert(padded[0] == f[0]);
            assert(is_digit(f[0]));
            if len >= 2 {
                assert(padded[1] == f[1]);
                assert(is_digit(f[1]));
            } else {
                assert(padded[1] == '0');
            }
            if len >= 3 {
                assert(padded[2] == f[2]);
                assert(is_digit(f[2]));
            } else {
                assert(padded[2] == '0');
            }
            assert(padded =~= seq![padded[0], padded[1], padded[2]]);
            lemma_digits_value3(padded[0], padded[1], padded[2]);
        }
        frac = d1 * 100 + d2 * 10 + d3;
    } else {
        proof {
            let padded = (Seq::<char>::empty() + seq!['0', '0', '0']).take(3);
            assert(padded =~= seq!['0', '0', '0']);
            lemma_digits_value3('0', '0', '0');
        }
    }
    let total = v * 1000 + frac;
    if total > 0xFFFF_FFFF {
        None
    } else {
        Some(total as u32)
    }
}

fn parse_line_in(t: &Vec<char>, lo: usize, hi: usize) -> (r: Option<(u32, u32, u32)>)
    requires
        lo <= hi <= t.len(),
    ensures
        r == parse_line(t@.subrange(lo as int, hi as int)),
{
    let ghost l = t@.subrange(lo as int, hi as int);
    let c1 = find_in(t, ',', lo, lo, hi);
    if hi - c1 < 2 || t[c1 + 1] != ' ' {
        return None;
    }
    let c2 = find_in(t, ',', lo, c1 + 1, hi);
    proof {
        lemma_find_char_hit(l, ',', c1 + 1 - lo);
    }
    if hi - c2 < 2 || t[c2 + 1] != ' ' {
        return None;
    }
    assert(t@.subrange(lo as int, c1 as int) =~= l.subrange(0, c1 - lo));
    assert(t@.subrange(c1 + 2, c2 as int) =~= l.subrange(c1 - lo + 2, c2 - lo));
    assert(t@.subrange(c2 + 2, hi as int) =~= l.subrange(c2 - lo + 2, l.len() as int));
    let r = parse_number_in(t, lo, c1);
    let g = parse_number_in(t, c1 + 2, c2);
    let b = parse_number_in(t, c2 + 2, hi);
    match (r, g, b) {
        (Some(r), Some(g), Some(b)) => Some((r, g, b)),
        _ => None,
    }
}

fn blank_in(t: &Vec<char>, lo: usize, hi: usize) -> (r: bool)
    requires
        lo <= hi <= t.len(),
    ensures
        r == is_blank(t@.subrange(lo as int, hi as int)),
{
    let ghost l = t@.subrange(lo as int, hi as int);
    let mut k = lo;
    while k < hi
        invariant
            lo <= k <= hi <= t.len(),
            l == t@.subrange(lo as int, hi as int),
            forall|i: int| 0 <= i < k - lo ==> is_space(#[trigger] l[i]),
        decreases hi - k,
    {
        let c = t[k];
        if !(c == ' ' || c == '\t' || c == '\r') {
            assert(l[k - lo] == c);
            return false;
        }
        k = k + 1;
    }
    true
}

proof fn lemma_find_char_hit(s: Seq<char>, c: char, i: int)
    requires
        0 <= i <= s.len(),
    ensures
        i <= find_char(s, c, i) <= s.len(),
        find_char(s, c, i) < s.len() ==> s[find_char(s, c, i)] == c,
    decreases s.len() - i,
{
    if i < s.len() && s[i] != c {
        lemma_find_char_hit(s, c, i + 1);
    }
}

proof fn lemma_split_nonempty(t: Seq<char>)
    ensures
        split_lines(t).len() >= 1,
{
}

proof fn lemma_find_char_shift(s: Seq<char>, c: char, start: int, i: int)
    requires
        0 <= start <= s.len(),
        0 <= i <= s.len() - start,
    ensures
        find_char(s.skip(start), c, i) == find_char(s, c, start + i) - start,
    decreases s.len() - start - i,
{
    if i < s.len() - start {
        lemma_find_char_shift(s, c, start, i + 1);
    }
}

proof fn lemma_import_err_stays(vals: Seq<ColorPoint>, lines: Seq<Seq<char>>, n: int, m: int)
    requires
        0 <= n <= m,
        import_lines(vals, lines, n) is Err,
    ensures
        import_lines(vals, lines, m) == import_lines(vals, lines, n),
    decreases m - n,
{
    if n < m {
        lemma_import_err_stays(vals, lines, n, m - 1);
    }
}

impl Cube {
    /// The scan as text: one line `"<r>, <g>, <b>"` per facelet, in notation order, each
    /// channel with three fraction digits.
    pub fn export(&self) -> (s: String)
        ensures
            s@ == export_from(self.facelet_rgb_values@, 0),
    {
        let vals = &self.facelet_rgb_values;
        let mut out: Vec<char> = Vec::new();
        let mut k: usize = 0;
        while k < vals.len()
            invariant
                k <= vals.len(),
                out@ + export_from(vals@, k as int) == export_from(vals@, 0),
            decreases vals.len() - k,
        {
            let ghost before = out@;
            push_line(&mut out, &vals[k]);
            assert(export_from(vals@, k as int) == line_text(vals@[k as int]) + seq!['\n']
                + export_from(vals@, k + 1));
            assert(out@ + export_from(vals@, k + 1) =~= before + export_from(vals@, k as int));
            k = k + 1;
        }
        assert(out@ + export_from(vals@, k as int) =~= out@);
        string_from_chars(&out)
    }

    /// Reads a scan text (see `read_scan`): lines 0 to 53 give the samples of facelets 0 to
    /// 53, and only blank lines may follow. A wrong sample count or a malformed line is an
    /// error, and on an error the cube is left unchanged.
    pub fn import(&mut self, text: &str) -> (r: Result<(), ScanError>)
        requires
            old(self).facelet_rgb_values@.len() == NUM_FACELETS,
            text@.len() < usize::MAX,
        ensures
            match read_scan(old(self).facelet_rgb_values@, text@) {
                Ok(v) => r is Ok && final(self).facelet_rgb_values@ == v,
                Err(e) => r == Err::<(), ScanError>(e) && final(self).facelet_rgb_values@ == old(
                    self,
                ).facelet_rgb_values@,
            },
            final(self).curr_idx == old(self).curr_idx,
            final(self).next_faces == old(self).next_faces,
            final(self).right_face == old(self).right_face,
            final(self).left_face == old(self).left_face,
    {
        let t = chars_of(text);
        let ghost base = self.facelet_rgb_values@;
        let ghost lines = split_lines(t@);
        let mut vals = self.facelet_rgb_values.clone();
        assert(vals@ =~= base);
        let mut start: usize = 0;
        let mut pos: usize = 0;
        assert(lines.skip(0) =~= lines);
        assert(t@.skip(0) =~= t@);
        loop
            invariant_except_break
                lines.skip(pos as int) == split_lines(t@.skip(start as int)),
                pos <= start,
            invariant
                t.len() < usize::MAX,
                vals@.len() == NUM_FACELETS,
                t@ == text@,
                base == self.facelet_rgb_values@,
                base.len() == NUM_FACELETS,
                lines == split_lines(t@),
                start <= t.len(),
                pos <= lines.len(),
                import_lines(base, lines, pos as int) == Ok::<Seq<ColorPoint>, ScanError>(vals@),
            ensures
                pos == lines.len(),
            decreases t.len() - start,
        {
            let j = find_in(&t, '\n', start, start, t.len());
            proof {
                let rest = t@.skip(start as int);
                assert(t@.subrange(start as int, t.len() as int) =~= rest);
                lemma_find_char_shift(t@, '\n', start as int, 0);
                lemma_split_nonempty(rest);
                assert(lines.skip(pos as int)[0] == lines[pos as int]);
                if j < t.len() {
                    assert(rest.take(j - start) =~= t@.subrange(start as int, j as int));
                    assert(split_lines(rest)[0] == rest.take(j - start));
                } else {
                    assert(split_lines(rest) == seq![rest]);
                    assert(rest =~= t@.subrange(start as int, j as int));
                }
            }
            let ghost line = t@.subrange(start as int, j as int);
            assert(lines[pos as int] == line);
            let blank = blank_in(&t, start, j);
            if pos >= NUM_FACELETS {
                if !blank {
                    proof {
                        lemma_import_err_stays(base, lines, pos + 1, lines.len() as int);
                    }
                    return Err(ScanError::TooManyLines(pos));
                }
            } else if blank {
                proof {
                    lemma_import_err_stays(base, lines, pos + 1, lines.len() as int);
                }
                return Err(ScanError::TooFewSamples(pos));
            } else {
                match parse_line_in(&t, start, j) {
                    Some((r, g, b)) => {
                        vals.set(pos, ColorPoint { r, g, b, index: pos });
                    },
                    None => {
                        proof {
                            lemma_import_err_stays(base, lines, pos + 1, lines.len() as int);
                        }
                        return Err(ScanError::MalformedLine(pos));
                    },
                }
            }
            pos = pos + 1;
            if j >= t.len() {
                proof {
                    let rest = t@.skip((start) as int);
                    assert(lines.skip(pos - 1).len() == 1);
                }
                break;
            }
            proof {
                let rest = t@.skip(start as int);
                assert(rest.skip(j - start + 1) =~= t@.skip(j + 1));
                assert(split_lines(rest) == seq![rest.take(j - start)] + split_lines(rest.skip(j - start + 1)));
                assert(lines.skip(pos as int) =~= lines.skip(pos - 1).skip(1));
            }
            start = j + 1;
        }
        if pos < NUM_FACELETS {
            return Err(ScanError::TooFewSamples(pos));
        }
        self.facelet_rgb_values = vals;
        Ok(())
    }
}

} // verus!
