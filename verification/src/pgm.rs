//! Binary (P5) PGM parsing and occupancy classes.
//!
//! A P5 header is four whitespace-separated tokens, `P5`, width, height and
//! maxval, where `#` starts a comment running to the end of its line; one
//! whitespace byte then separates the header from `width * height` raster bytes.
use vstd::prelude::*;

verus! {

/// Per-cell occupancy class of a map pixel.
#[derive(Debug, Clone, Copy, PartialEq, Eq)]
pub enum Occupancy {
    /// Impassable.
    Obstacle,
    /// Navigable.
    Free,
    /// Unscanned or ambiguous.
    Unknown,
}

/// ASCII whitespace: space, tab, line feed, form feed, carriage return.
pub open spec fn is_ws(c: u8) -> bool {
    c == 0x20u8 || c == 0x09u8 || c == 0x0Au8 || c == 0x0Cu8 || c == 0x0Du8
}

/// First position at or after `p` holding a line feed, or the end.
pub open spec fn line_end(b: Seq<u8>, p: int) -> int
    decreases b.len() - p,
{
    if p < 0 || p >= b.len() || b[p] == 0x0Au8 {
        if p < 0 { 0 } else if p > b.len() { b.len() as int } else { p }
    } else {
        line_end(b, p + 1)
    }
}

/// Position after skipping whitespace and `#` comments from `p`.
pub open spec fn skip_blank(b: Seq<u8>, p: int) -> int
    decreases b.len() - p, 1int,
{
    if 0 <= p < b.len() && is_ws(b[p]) {
        skip_blank(b, p + 1)
    } else if 0 <= p < b.len() && b[p] == 0x23u8 {
        skip_comment(b, p)
    } else {
        p
    }
}

/// Position after skipping the comment at `p`, then blanks.
pub open spec fn skip_comment(b: Seq<u8>, p: int) -> int
    decreases b.len() - p, 0int,
{
    if 0 <= p < b.len() && b[p] == 0x23u8 {
        let q = line_end(b, p + 1);
        if p < q <= b.len() {
            skip_blank(b, q)
        } else {
            q
        }
    } else {
        p
    }
}

/// First position at or after `p` holding whitespace, or the end.
pub open spec fn token_end(b: Seq<u8>, p: int) -> int
    decreases b.len() - p,
{
    if p < 0 || p >= b.len() || is_ws(b[p]) {
        if p < 0 { 0 } else if p > b.len() { b.len() as int } else { p }
    } else {
        token_end(b, p + 1)
    }
}

/// The next token from `p`: its start and end, or `None` at the end of input.
pub open spec fn token_at(b: Seq<u8>, p: int) -> Option<(int, int)> {
    let s = skip_blank(b, p);
    if s >= b.len() {
        None
    } else {
        Some((s, token_end(b, s)))
    }
}

/// Decimal value of the ASCII digits `d`.
pub open spec fn digits_value(d: Seq<u8>) -> nat
    decreases d.len(),
{
    if d.len() == 0 {
        0
    } else {
        digits_value(d.drop_last()) * 10 + (d.last() - 0x30u8) as nat
    }
}

/// Every byte of `d` is an ASCII digit.
pub open spec fn all_digits(d: Seq<u8>) -> bool {
    forall|i: int| 0 <= i < d.len() ==> 0x30u8 <= #[trigger] d[i] <= 0x39u8
}

/// The `usize` a token spells: an optional `+` and at least one digit, with a
/// value that fits.
pub open spec fn token_usize(t: Seq<u8>) -> Option<usize> {
    let d = if t.len() > 0 && t[0] == 0x2Bu8 { t.subrange(1, t.len() as int) } else { t };
    if d.len() > 0 && all_digits(d) && digits_value(d) <= usize::MAX {
        Some(digits_value(d) as usize)
    } else {
        None
    }
}

/// Decimal digits of `n`, most significant first.
pub open spec fn decimal(n: nat) -> Seq<char>
    decreases n,
{
    if n < 10 {
        seq![(48 + n) as char]
    } else {
        decimal(n / 10) + seq![(48 + n % 10) as char]
    }
}

/// The number token at `p` of a PGM header, read as the header field `what`:
/// its value and the position after it, or the error naming the field.
pub open spec fn header_number(b: Seq<u8>, p: int, what: Seq<char>) -> Result<(usize, int), Seq<char>> {
    match token_at(b, p) {
        None => Err("missing "@ + what),
        Some(t) => match token_usize(b.subrange(t.0, t.1)) {
            None => Err("bad "@ + what),
            Some(v) => Ok((v, t.1)),
        },
    }
}

/// Outcome of parsing the bytes `b` as a P5 PGM: width, height and the raster,
/// or the error message.
pub open spec fn pgm_p5(b: Seq<u8>) -> Result<(usize, usize, Seq<u8>), Seq<char>> {
    match token_at(b, 0) {
        None => Err("empty PGM"@),
        Some(t1) => if b.subrange(t1.0, t1.1) != seq![0x50u8, 0x35u8] {
            Err("not a binary (P5) PGM"@)
        } else {
            match header_number(b, t1.1, "width"@) {
                Err(e) => Err(e),
                Ok((w, p2)) => match header_number(b, p2, "height"@) {
                    Err(e) => Err(e),
                    Ok((h, p3)) => match header_number(b, p3, "maxval"@) {
                        Err(e) => Err(e),
                        Ok((mv, p4)) => if mv > 255 {
                            Err("maxval "@ + decimal(mv as nat) + " > 255 unsupported"@)
                        } else {
                            let pos = if p4 < b.len() && is_ws(b[p4]) { p4 + 1 } else { p4 };
                            let n = w * h;
                            if n > usize::MAX {
                                Err("width*height overflow"@)
                            } else if b.len() < pos + n {
                                Err("PGM raster too short: need "@ + decimal(n as nat) + " bytes, have "@ + decimal((b.len() - pos) as nat))
                            } else {
                                Ok((w, h, b.subrange(pos, pos + n)))
                            }
                        },
                    },
                },
            }
        },
    }
}

/// ASCII decimal digits of `n`, most significant first.
pub open spec fn digit_bytes(n: nat) -> Seq<u8>
    decreases n,
{
    if n < 10 {
        seq![(48 + n) as u8]
    } else {
        digit_bytes(n / 10) + seq![(48 + n % 10) as u8]
    }
}

/// A P5 file written with the plainest header: `P5`, a line feed, the width,
/// a space, the height, a line feed, the maxval, a line feed, then the raster.
pub open spec fn p5_file(w: nat, h: nat, maxval: nat, raster: Seq<u8>) -> Seq<u8> {
    seq![0x50u8, 0x35u8, 0x0Au8] + digit_bytes(w) + seq![0x20u8] + digit_bytes(h) + seq![0x0Au8]
        + digit_bytes(maxval) + seq![0x0Au8] + raster
}

/// The digits of `n` are at least one ASCII digit and spell `n`.
pub proof fn lemma_digit_bytes(n: nat)
    ensures
        digit_bytes(n).len() >= 1,
        all_digits(digit_bytes(n)),
        digits_value(digit_bytes(n)) == n,
    decreases n,
{
    let d = digit_bytes(n);
    if n >= 10 {
        lemma_digit_bytes(n / 10);
        assert(d.drop_last() =~= digit_bytes(n / 10));
        assert(d.last() == (48 + n % 10) as u8);
        assert((d.last() - 0x30u8) as nat == n % 10);
        assert(n == (n / 10) * 10 + n % 10);
        assert(digits_value(d) == digits_value(digit_bytes(n / 10)) * 10 + n % 10);
    } else {
        assert(d.drop_last() =~= Seq::<u8>::empty());
        assert(digits_value(d.drop_last()) == 0);
        assert((d.last() - 0x30u8) as nat == n);
    }
}

/// A token that runs from `p` to a whitespace byte at `q` ends at `q`.
proof fn lemma_token_end(b: Seq<u8>, p: int, q: int)
    requires
        0 <= p <= q < b.len(),
        forall|i: int| p <= i < q ==> !is_ws(#[trigger] b[i]),
        is_ws(b[q]),
    ensures
        token_end(b, p) == q,
    decreases q - p,
{
    if p < q {
        lemma_token_end(b, p + 1, q);
    }
}

/// A whitespace byte at `p` followed by the digits of `n` and a whitespace
/// byte is the header field `n`, read up to the end of its digits.
proof fn lemma_header_field(b: Seq<u8>, p: int, n: nat, what: Seq<char>)
    requires
        0 <= p,
        n <= usize::MAX,
        p + 1 + digit_bytes(n).len() < b.len(),
        is_ws(b[p]),
        b.subrange(p + 1, p + 1 + digit_bytes(n).len()) == digit_bytes(n),
        is_ws(b[p + 1 + digit_bytes(n).len()]),
    ensures
        header_number(b, p, what) == Ok::<(usize, int), Seq<char>>((n as usize, p + 1 + digit_bytes(n).len())),
{
    let d = digit_bytes(n);
    let e = p + 1 + d.len();
    lemma_digit_bytes(n);
    assert forall|i: int| p + 1 <= i < e implies !is_ws(#[trigger] b[i]) by {
        assert(b[i] == d[i - (p + 1)]);
        assert(0x30u8 <= d[i - (p + 1)] <= 0x39u8);
    }
    assert(b[p + 1] == d[0]);
    assert(0x30u8 <= d[0] <= 0x39u8);
    assert(skip_blank(b, p + 1) == p + 1);
    assert(skip_blank(b, p) == p + 1);
    lemma_token_end(b, p + 1, e);
    assert(b.subrange(p + 1, e) == d);
    assert(token_usize(d) == Some(n as usize));
}

/// A P5 file with a plain header, any maxval up to 255 and at least
/// `w * h` raster bytes parses to its width, its height and the first
/// `w * h` raster bytes.
pub proof fn lemma_p5_file_parses(w: usize, h: usize, maxval: nat, raster: Seq<u8>)
    requires
        maxval <= 255,
        w * h <= usize::MAX,
        raster.len() >= w * h,
    ensures
        pgm_p5(p5_file(w as nat, h as nat, maxval, raster))
            == Ok::<(usize, usize, Seq<u8>), Seq<char>>((w, h, raster.subrange(0, w * h))),
{
    let dw = digit_bytes(w as nat);
    let dh = digit_bytes(h as nat);
    let dm = digit_bytes(maxval);
    let b = p5_file(w as nat, h as nat, maxval, raster);
    lemma_digit_bytes(w as nat);
    lemma_digit_bytes(h as nat);
    lemma_digit_bytes(maxval);
    let lw = dw.len() as int;
    let lh = dh.len() as int;
    let lm = dm.len() as int;
    let pw = 2int;
    let ph = 3 + lw;
    let pm = 4 + lw + lh;
    let p4 = 5 + lw + lh + lm;
    assert(b.len() == p4 + 1 + raster.len());
    assert(b[0] == 0x50u8);
    assert(b[1] == 0x35u8);
    assert(b[pw] == 0x0Au8);
    assert(b[ph] == 0x20u8);
    assert(b[pm] == 0x0Au8);
    assert(b[p4] == 0x0Au8);
    assert(b.subrange(pw + 1, pw + 1 + lw) =~= dw);
    assert(b.subrange(ph + 1, ph + 1 + lh) =~= dh);
    assert(b.subrange(pm + 1, pm + 1 + lm) =~= dm);
    assert(skip_blank(b, 0) == 0);
    lemma_token_end(b, 0, 2);
    assert(token_at(b, 0) == Some((0int, 2int)));
    assert(b.subrange(0, 2) =~= seq![0x50u8, 0x35u8]);
    lemma_header_field(b, pw, w as nat, "width"@);
    lemma_header_field(b, ph, h as nat, "height"@);
    lemma_header_field(b, pm, maxval, "maxval"@);
    assert(b.subrange(p4 + 1, p4 + 1 + w * h) =~= raster.subrange(0, w * h));
}

/// The decimal text of `n`.
pub fn decimal_text(n: usize) -> (r: String)
    ensures
        r@ == decimal(n as nat),
    decreases n,
{
    let d = n % 10;
    let tail: &str = if d == 0 { "0" } else if d == 1 { "1" } else if d == 2 { "2" } else if d == 3 { "3" }
        else if d == 4 { "4" } else if d == 5 { "5" } else if d == 6 { "6" } else if d == 7 { "7" }
        else if d == 8 { "8" } else { "9" };
    proof {
        reveal_strlit("0");
        reveal_strlit("1");
        reveal_strlit("2");
        reveal_strlit("3");
        reveal_strlit("4");
        reveal_strlit("5");
        reveal_strlit("6");
        reveal_strlit("7");
        reveal_strlit("8");
        reveal_strlit("9");
        assert(tail@ =~= seq![(48 + d) as char]);
    }
    if n < 10 {
        String::from_str(tail)
    } else {
        let mut head = decimal_text(n / 10);
        head.append(tail);
        head
    }
}

/// Position of the first line feed at or after `p`, or the end.
proof fn lemma_line_end_step(b: Seq<u8>, p: int)
    requires
        0 <= p < b.len(),
        b[p] != 0x0Au8,
    ensures
        line_end(b, p) == line_end(b, p + 1),
{
}

/// Read the next whitespace-delimited token from `*pos`, skipping `#` comment
/// lines; gives its start and end and leaves `*pos` after it.
fn next_token(bytes: &[u8], pos: &mut usize) -> (r: Option<(usize, usize)>)
    requires
        *old(pos) <= bytes@.len(),
    ensures
        r matches Some(t) ==> token_at(bytes@, *old(pos) as int) == Some((t.0 as int, t.1 as int)) && *final(pos) == t.1
            && t.0 <= t.1 <= bytes@.len(),
        r is None ==> token_at(bytes@, *old(pos) as int) is None,
        *final(pos) <= bytes@.len(),
{
    let ghost b = bytes@;
    let ghost target = skip_blank(b, *old(pos) as int);
    loop
        invariant
            b == bytes@,
            *pos <= b.len(),
            skip_blank(b, *pos as int) == target,
        ensures
            b == bytes@,
            *pos <= b.len(),
            skip_blank(b, *pos as int) == target,
            !(*pos < b.len() && (is_ws(b[*pos as int]) || b[*pos as int] == 0x23u8)),
        decreases b.len() - *pos,
    {
        let ghost head = *pos as int;
        while *pos < bytes.len() && is_ascii_ws(bytes[*pos])
            invariant
                b == bytes@,
                head <= *pos <= b.len(),
                skip_blank(b, *pos as int) == target,
            decreases b.len() - *pos,
        {
            *pos += 1;
        }
        if *pos < bytes.len() && bytes[*pos] == 0x23u8 {
            let ghost start = *pos as int;
            *pos += 1;
            while *pos < bytes.len() && bytes[*pos] != 0x0Au8
                invariant
                    b == bytes@,
                    start < *pos <= b.len(),
                    line_end(b, *pos as int) == line_end(b, start + 1),
                decreases b.len() - *pos,
            {
                proof {
                    lemma_line_end_step(b, *pos as int);
                }
                *pos += 1;
            }
            proof {
                assert(line_end(b, *pos as int) == *pos);
                assert(skip_blank(b, start) == skip_comment(b, start));
            }
            continue;
        }
        break;
    }
    proof {
        assert(skip_blank(b, *pos as int) == *pos);
    }
    if *pos >= bytes.len() {
        return None;
    }
    let start = *pos;
    while *pos < bytes.len() && !is_ascii_ws(bytes[*pos])
        invariant
            b == bytes@,
            start == target,
            target == skip_blank(b, *old(pos) as int),
            start <= *pos <= b.len(),
            start < b.len(),
            token_end(b, *pos as int) == token_end(b, start as int),
        decreases b.len() - *pos,
    {
        *pos += 1;
    }
    Some((start, *pos))
}

/// ASCII whitespace test.
fn is_ascii_ws(c: u8) -> (r: bool)
    ensures
        r == is_ws(c),
{
    c == 0x20u8 || c == 0x09u8 || c == 0x0Au8 || c == 0x0Cu8 || c == 0x0Du8
}

/// A digit string is worth at least any of its prefixes.
proof fn lemma_digits_prefix(d: Seq<u8>, k: int)
    requires
        all_digits(d),
        0 <= k <= d.len(),
    ensures
        digits_value(d.take(k)) <= digits_value(d),
    decreases d.len(),
{
    if k < d.len() {
        let e = d.drop_last();
        assert(all_digits(e)) by {
            assert forall|i: int| 0 <= i < e.len() implies 0x30u8 <= #[trigger] e[i] <= 0x39u8 by {
                assert(e[i] == d[i]);
            }
        }
        lemma_digits_prefix(e, k);
        assert(e.take(k) =~= d.take(k));
    } else {
        assert(d.take(k) =~= d);
    }
}

/// The `usize` that bytes `start .. end` spell, per [`token_usize`].
fn token_value(bytes: &[u8], start: usize, end: usize) -> (r: Option<usize>)
    requires
        start <= end <= bytes@.len(),
    ensures
        r == token_usize(bytes@.subrange(start as int, end as int)),
{
    let ghost t = bytes@.subrange(start as int, end as int);
    let mut i = start;
    if i < end && bytes[i] == 0x2Bu8 {
        i += 1;
    }
    let ghost d = bytes@.subrange(i as int, end as int);
    proof {
        assert(d =~= (if t.len() > 0 && t[0] == 0x2Bu8 { t.subrange(1, t.len() as int) } else { t }));
    }
    if i == end {
        return None;
    }
    let first = i;
    let mut v: usize = 0;
    while i < end
        invariant
            first <= i <= end <= bytes@.len(),
            first < end,
            t == bytes@.subrange(start as int, end as int),
            d =~= (if t.len() > 0 && t[0] == 0x2Bu8 { t.subrange(1, t.len() as int) } else { t }),
            d == bytes@.subrange(first as int, end as int),
            all_digits(d.take(i - first)),
            v == digits_value(d.take(i - first)),
        decreases end - i,
    {
        let c = bytes[i];
        proof {
            assert(d.take(i - first + 1).drop_last() =~= d.take(i - first));
            assert(d[i - first] == c);
        }
        if c < 0x30u8 || c > 0x39u8 {
            proof {
                assert(!all_digits(d));
            }
            return None;
        }
        let dv = (c - 0x30u8) as usize;
        let m = v.checked_mul(10);
        match m {
            None => {
                proof {
                    if all_digits(d) {
                        lemma_digits_prefix(d, i - first + 1);
                    }
                }
                return None;
            },
            Some(m) => {
                let a = m.checked_add(dv);
                match a {
                    None => {
                        proof {
                            if all_digits(d) {
                                lemma_digits_prefix(d, i - first + 1);
                            }
                        }
                        return None;
                    },
                    Some(a) => {
                        v = a;
                    },
                }
            },
        }
        proof {
            assert forall|j: int| 0 <= j < d.take(i - first + 1).len() implies 0x30u8 <= #[trigger] d.take(i - first + 1)[j] <= 0x39u8 by {
                if j < i - first {
                    assert(d.take(i - first + 1)[j] == d.take(i - first)[j]);
                }
            }
        }
        i += 1;
    }
    proof {
        assert(d.take(end - first) =~= d);
    }
    Some(v)
}

/// Read the next token as the header field `what`.
fn parse_token_usize(bytes: &[u8], pos: &mut usize, what: &str) -> (r: Result<usize, String>)
    requires
        *old(pos) <= bytes@.len(),
    ensures
        *final(pos) <= bytes@.len(),
        match header_number(bytes@, *old(pos) as int, what@) {
            Ok((v, p)) => r matches Ok(x) && x == v && *final(pos) == p,
            Err(e) => r matches Err(m) && m@ == e,
        },
{
    let tok = next_token(bytes, pos);
    match tok {
        None => {
            let mut m = String::from_str("missing ");
            m.append(what);
            proof {
                reveal_strlit("missing ");
            }
            Err(m)
        },
        Some((s, e)) => match token_value(bytes, s, e) {
            None => {
                let mut m = String::from_str("bad ");
                m.append(what);
                proof {
                    reveal_strlit("bad ");
                }
                Err(m)
            },
            Some(v) => Ok(v),
        },
    }
}

/// Parse a binary (P5) PGM: width, height and the `width * height` raster
/// bytes, or the error message; see [`pgm_p5`].  Only `maxval <= 255` (one
/// byte per pixel) is accepted.
pub fn parse_pgm_p5(bytes: &[u8]) -> (r: Result<(usize, usize, Vec<u8>), String>)
    ensures
        match pgm_p5(bytes@) {
            Ok((w, h, px)) => r matches Ok(v) && v.0 == w && v.1 == h && v.2@ == px,
            Err(e) => r matches Err(m) && m@ == e,
        },
        forall|w: usize, h: usize, mv: nat, px: Seq<u8>| bytes@ == #[trigger] p5_file(w as nat, h as nat, mv, px)
            && mv <= 255 && w * h <= usize::MAX && px.len() >= w * h
            ==> (r matches Ok(v) && v.0 == w && v.1 == h && v.2@ == px.subrange(0, w * h)),
{
    proof {
        assert forall|w: usize, h: usize, mv: nat, px: Seq<u8>| bytes@ == #[trigger] p5_file(w as nat, h as nat, mv, px)
            && mv <= 255 && w * h <= usize::MAX && px.len() >= w * h
            implies pgm_p5(bytes@) == Ok::<(usize, usize, Seq<u8>), Seq<char>>((w, h, px.subrange(0, w * h))) by {
            lemma_p5_file_parses(w, h, mv, px);
        }
    }
    let ghost b = bytes@;
    let mut pos: usize = 0;
    let magic = next_token(bytes, &mut pos);
    match magic {
        None => {
            return Err(String::from_str("empty PGM"));
        },
        Some((s, e)) => {
            let is_p5 = e - s == 2 && bytes[s] == 0x50u8 && bytes[s + 1] == 0x35u8;
            proof {
                if is_p5 {
                    assert(b.subrange(s as int, e as int) =~= seq![0x50u8, 0x35u8]);
                } else if e - s == 2 {
                    assert(b.subrange(s as int, e as int)[0] == b[s as int]);
                    assert(b.subrange(s as int, e as int)[1] == b[s + 1]);
                    assert(b.subrange(s as int, e as int) != seq![0x50u8, 0x35u8]);
                } else {
                    assert(b.subrange(s as int, e as int).len() != seq![0x50u8, 0x35u8].len());
                    assert(b.subrange(s as int, e as int) != seq![0x50u8, 0x35u8]);
                }
            }
            if !is_p5 {
                return Err(String::from_str("not a binary (P5) PGM"));
            }
        },
    }
    let ghost p1 = pos as int;
    let w = match parse_token_usize(bytes, &mut pos, "width") {
        Err(m) => {
            return Err(m);
        },
        Ok(v) => v,
    };
    let h = match parse_token_usize(bytes, &mut pos, "height") {
        Err(m) => {
            return Err(m);
        },
        Ok(v) => v,
    };
    let maxval = match parse_token_usize(bytes, &mut pos, "maxval") {
        Err(m) => {
            return Err(m);
        },
        Ok(v) => v,
    };
    if maxval > 255 {
        let mut m = String::from_str("maxval ");
        let d = decimal_text(maxval);
        m.append(d.as_str());
        m.append(" > 255 unsupported");
        proof {
            reveal_strlit("maxval ");
            reveal_strlit(" > 255 unsupported");
        }
        return Err(m);
    }
    if pos < bytes.len() && is_ascii_ws(bytes[pos]) {
        pos += 1;
    }
    let n = match w.checked_mul(h) {
        None => {
            return Err(String::from_str("width*height overflow"));
        },
        Some(n) => n,
    };
    if bytes.len() - pos < n {
        let mut m = String::from_str("PGM raster too short: need ");
        let dn = decimal_text(n);
        m.append(dn.as_str());
        m.append(" bytes, have ");
        let dh = decimal_text(bytes.len() - pos);
        m.append(dh.as_str());
        proof {
            reveal_strlit("PGM raster too short: need ");
            reveal_strlit(" bytes, have ");
        }
        return Err(m);
    }
    let mut pixels: Vec<u8> = Vec::new();
    let mut k: usize = 0;
    let len = bytes.len();
    while k < n
        invariant
            b == bytes@,
            len == b.len(),
            pos + n <= len,
            0 <= k <= n,
            pixels@ =~= b.subrange(pos as int, pos + k),
        decreases n - k,
    {
        pixels.push(bytes[pos + k]);
        k += 1;
    }
    Ok((w, h, pixels))
}

/// Unicode white space, as `char::is_whitespace` classifies it.
pub open spec fn is_white(c: char) -> bool {
    ||| c == ' '
    ||| ('\t' <= c && c <= '\r')
    ||| c == '\u{85}'
    ||| c == '\u{a0}'
    ||| c == '\u{1680}'
    ||| ('\u{2000}' <= c && c <= '\u{200a}')
    ||| c == '\u{2028}'
    ||| c == '\u{2029}'
    ||| c == '\u{202f}'
    ||| c == '\u{205f}'
    ||| c == '\u{3000}'
}

/// First position at or after `p` holding a line feed, or the end.
pub open spec fn nl_at(t: Seq<char>, p: int) -> int
    decreases t.len() - p,
{
    if p >= t.len() { t.len() as int } else if t[p] == '\n' { p } else { nl_at(t, p + 1) }
}

/// The line feed search moves forward and stays within the text.
pub proof fn lemma_nl_at(t: Seq<char>, p: int)
    requires
        0 <= p,
    ensures
        p <= nl_at(t, p) || p > t.len(),
        nl_at(t, p) <= t.len() || p > t.len(),
    decreases t.len() - p,
{
    if p < t.len() && t[p] != '\n' {
        lemma_nl_at(t, p + 1);
    }
}

/// First position in `p .. end` not holding white space, or `end`.
pub open spec fn skip_white(t: Seq<char>, p: int, end: int) -> int
    decreases end - p,
{
    if p >= end || !is_white(t[p]) { p } else { skip_white(t, p + 1, end) }
}

/// `e` moved back over the white space that ends `s .. e`.
pub open spec fn back_white(t: Seq<char>, s: int, e: int) -> int
    decreases e - s,
{
    if e <= s || !is_white(t[e - 1]) { e } else { back_white(t, s, e - 1) }
}

/// First position in `p .. end` holding `#`, or `end`.
pub open spec fn hash_at(t: Seq<char>, p: int, end: int) -> int
    decreases end - p,
{
    if p >= end || t[p] == '#' { p } else { hash_at(t, p + 1, end) }
}

/// `key` starts at `p` and ends by `end`.
pub open spec fn has_prefix(t: Seq<char>, p: int, end: int, key: Seq<char>) -> bool {
    p + key.len() <= end && t.subrange(p, p + key.len()) == key
}

/// The value span of the line `p .. end` when, after leading white space, it
/// reads `key`, optional white space and `:`: the text after the colon up to
/// the first `#`, without white space at either end.
pub open spec fn line_value(t: Seq<char>, p: int, end: int, key: Seq<char>) -> Option<(int, int)> {
    let s0 = skip_white(t, p, end);
    if has_prefix(t, s0, end, key) {
        let q = skip_white(t, s0 + key.len(), end);
        if q < end && t[q] == ':' {
            let h = hash_at(t, q + 1, end);
            let s = skip_white(t, q + 1, h);
            Some((s, back_white(t, s, h)))
        } else {
            None
        }
    } else {
        None
    }
}

/// The value span of `key` on the first line at or after `p` that gives one.
pub open spec fn yaml_value(t: Seq<char>, key: Seq<char>, p: int) -> Option<(int, int)>
    decreases t.len() + 1 - p,
{
    if p < 0 || p >= t.len() {
        None
    } else {
        match line_value(t, p, nl_at(t, p), key) {
            Some(v) => Some(v),
            None => {
                proof {
                    lemma_nl_at(t, p);
                }
                yaml_value(t, key, nl_at(t, p) + 1)
            },
        }
    }
}

/// [`is_white`] in executable form.
fn is_white_exec(c: char) -> (r: bool)
    ensures
        r == is_white(c),
{
    c == ' ' || ('\t' <= c && c <= '\r') || c == '\u{85}' || c == '\u{a0}' || c == '\u{1680}'
        || ('\u{2000}' <= c && c <= '\u{200a}') || c == '\u{2028}' || c == '\u{2029}' || c == '\u{202f}'
        || c == '\u{205f}' || c == '\u{3000}'
}

/// The value of the first `key: value` line of a `map_server` YAML text, as
/// a span of character positions: the text after the colon up to a `#`
/// comment, trimmed of white space; `None` when no line gives one.
pub fn yaml_value_span(text: &str, key: &str) -> (r: Option<(usize, usize)>)
    ensures
        r is None <==> yaml_value(text@, key@, 0) is None,
        r matches Some(v) ==> yaml_value(text@, key@, 0) == Some((v.0 as int, v.1 as int)),
{
    let ghost t = text@;
    let ghost k = key@;
    let n = text.unicode_len();
    let kl = key.unicode_len();
    let mut p: usize = 0;
    while p < n
        invariant
            n == t.len(),
            kl == k.len(),
            t == text@,
            k == key@,
            0 <= p <= n,
            yaml_value(t, k, 0) == yaml_value(t, k, p as int),
        decreases n - p,
    {
        // end of line
        let mut e: usize = p;
        while e < n && text.get_char(e) != '\n'
            invariant
                p <= e <= n,
                n == t.len(),
                t == text@,
                nl_at(t, p as int) == nl_at(t, e as int),
            decreases n - e,
        {
            e += 1;
        }
        // leading white space
        let mut s0: usize = p;
        while s0 < e && is_white_exec(text.get_char(s0))
            invariant
                p <= s0 <= e <= n,
                n == t.len(),
                t == text@,
                skip_white(t, p as int, e as int) == skip_white(t, s0 as int, e as int),
            decreases e - s0,
        {
            s0 += 1;
        }
        let mut found: Option<(usize, usize)> = None;
        if kl <= e - s0 {
            let mut i: usize = 0;
            let mut same = true;
            while i < kl && same
                invariant
                    0 <= i <= kl,
                    kl == k.len(),
                    s0 + kl <= e <= n,
                    n == t.len(),
                    t == text@,
                    k == key@,
                    same <==> (forall|j: int| 0 <= j < i ==> #[trigger] t[s0 + j] == k[j]),
                decreases kl - i,
            {
                if text.get_char(s0 + i) != key.get_char(i) {
                    same = false;
                }
                i += 1;
            }
            proof {
                if same {
                    assert(i == kl);
                    assert forall|j: int| 0 <= j < kl implies t.subrange(s0 as int, s0 + kl)[j] == k[j] by {
                        assert(t[s0 + j] == k[j]);
                    }
                    assert(t.subrange(s0 as int, s0 + kl) =~= k);
                } else {
                    if t.subrange(s0 as int, s0 + kl) == k {
                        assert forall|j: int| 0 <= j < i implies #[trigger] t[s0 + j] == k[j] by {
                            assert(t.subrange(s0 as int, s0 + kl)[j] == t[s0 + j]);
                        }
                    }
                }
            }
            if same {
                let mut q: usize = s0 + kl;
                while q < e && is_white_exec(text.get_char(q))
                    invariant
                        s0 + kl <= q <= e <= n,
                        n == t.len(),
                        t == text@,
                        skip_white(t, s0 + kl, e as int) == skip_white(t, q as int, e as int),
                    decreases e - q,
                {
                    q += 1;
                }
                if q < e && text.get_char(q) == ':' {
                    let mut h: usize = q + 1;
                    while h < e && text.get_char(h) != '#'
                        invariant
                            q + 1 <= h <= e <= n,
                            n == t.len(),
                            t == text@,
                            hash_at(t, q + 1, e as int) == hash_at(t, h as int, e as int),
                        decreases e - h,
                    {
                        h += 1;
                    }
                    let mut s: usize = q + 1;
                    while s < h && is_white_exec(text.get_char(s))
                        invariant
                            q + 1 <= s <= h <= e <= n,
                            n == t.len(),
                            t == text@,
                            skip_white(t, q + 1, h as int) == skip_white(t, s as int, h as int),
                        decreases h - s,
                    {
                        s += 1;
                    }
                    let mut v_end: usize = h;
                    while v_end > s && is_white_exec(text.get_char(v_end - 1))
                        invariant
                            s <= v_end <= h <= e <= n,
                            n == t.len(),
                            t == text@,
                            back_white(t, s as int, h as int) == back_white(t, s as int, v_end as int),
                        decreases v_end - s,
                    {
                        v_end -= 1;
                    }
                    found = Some((s, v_end));
                }
            }
        }
        proof {
            assert(line_value(t, p as int, e as int, k) == match found { Some(v) => Some((v.0 as int, v.1 as int)), None => None::<(int, int)> });
        }
        if let Some(v) = found {
            return Some(v);
        }
        if e >= n {
            proof {
                assert(nl_at(t, p as int) == e as int);
                assert(yaml_value(t, k, n + 1) is None);
            }
            return None;
        }
        p = e + 1;
    }
    None
}

} // verus!
