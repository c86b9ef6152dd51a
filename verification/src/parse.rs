//! Parsing city records from text lines.
//!
//! A record line is whitespace-separated: an x coordinate, a y coordinate,
//! and a name token; anything after the name is ignored.  Coordinates are
//! plain decimal numbers with an optional sign and an optional fractional
//! part, read into fixed-point units of `1 / SCALE`; extra fractional
//! digits are truncated.  A line that fails to parse is silently dropped,
//! as is the header line of a record list, which is never validated.

use vstd::prelude::*;
use crate::city::{City, city_ok, COORD_LIMIT, SCALE};

verus! {

/// ASCII whitespace, as a token separator.
pub open spec fn is_space(b: u8) -> bool {
    b == 32 || b == 9 || b == 10 || b == 11 || b == 12 || b == 13
}

/// A decimal digit.
pub open spec fn is_digit(b: u8) -> bool {
    48 <= b <= 57
}

/// Index of the first non-space byte at or after `i`, or the length.
pub open spec fn first_non_space(s: Seq<u8>, i: int) -> int
    decreases s.len() - i,
{
    if i < 0 || i >= s.len() {
        s.len() as int
    } else if is_space(s[i]) {
        first_non_space(s, i + 1)
    } else {
        i
    }
}

/// Index of the first space byte at or after `i`, or the length.
pub open spec fn token_end(s: Seq<u8>, i: int) -> int
    decreases s.len() - i,
{
    if i < 0 || i >= s.len() {
        s.len() as int
    } else if !is_space(s[i]) {
        token_end(s, i + 1)
    } else {
        i
    }
}

/// Index of the first `.` at or after `i`, or the length.
pub open spec fn first_dot(s: Seq<u8>, i: int) -> int
    decreases s.len() - i,
{
    if i < 0 || i >= s.len() {
        s.len() as int
    } else if s[i] == 46 {
        i
    } else {
        first_dot(s, i + 1)
    }
}

/// Every byte of `t` is a decimal digit.
pub open spec fn all_digits(t: Seq<u8>) -> bool {
    forall|i: int| 0 <= i < t.len() ==> is_digit(#[trigger] t[i])
}

/// Value of a digit string, most significant digit first.
pub open spec fn digits_value(t: Seq<u8>) -> int
    decreases t.len(),
{
    if t.len() == 0 {
        0
    } else {
        digits_value(t.drop_last()) * 10 + (t.last() - 48)
    }
}

/// Ten to the `k`.
pub open spec fn pow10(k: nat) -> int
    decreases k,
{
    if k == 0 {
        1
    } else {
        10 * pow10((k - 1) as nat)
    }
}

/// Value of a fractional digit string in units of one ten-thousandth:
/// digits past the fourth are truncated, shorter strings are padded.
pub open spec fn frac_value(t: Seq<u8>) -> int {
    if t.len() >= 4 {
        digits_value(t.subrange(0, 4))
    } else {
        digits_value(t) * pow10((4 - t.len()) as nat)
    }
}

/// The fixed-point value of a coordinate token, or `None` where the token
/// is not a plain decimal number whose value fits the grid.
pub open spec fn coord_spec(t: Seq<u8>) -> Option<int> {
    let signed = t.len() > 0 && (t[0] == 43 || t[0] == 45);
    let neg = t.len() > 0 && t[0] == 45;
    let start = if signed { 1int } else { 0int };
    let dot = first_dot(t, start);
    let ip = t.subrange(start, dot);
    let fp = if dot < t.len() { t.subrange(dot + 1, t.len() as int) } else { Seq::empty() };
    if !(all_digits(ip) && all_digits(fp)) {
        None
    } else if ip.len() + fp.len() == 0 {
        None
    } else {
        let mag = digits_value(ip) * (SCALE as int) + frac_value(fp);
        if mag > COORD_LIMIT as int {
            None
        } else if neg {
            Some(-mag)
        } else {
            Some(mag)
        }
    }
}

/// The parse of one record line: the two coordinates and the name bytes,
/// or `None` where a token is missing or a coordinate is malformed.
pub open spec fn parse_city_spec(s: Seq<u8>) -> Option<(int, int, Seq<u8>)> {
    let t1s = first_non_space(s, 0);
    let t1e = token_end(s, t1s);
    let t2s = first_non_space(s, t1e);
    let t2e = token_end(s, t2s);
    let t3s = first_non_space(s, t2e);
    let t3e = token_end(s, t3s);
    if t1s >= s.len() || t2s >= s.len() || t3s >= s.len() {
        None
    } else {
        match (coord_spec(s.subrange(t1s, t1e)), coord_spec(s.subrange(t2s, t2e))) {
            (Some(x), Some(y)) => Some((x, y, s.subrange(t3s, t3e))),
            _ => None,
        }
    }
}

/// The city records of a list of lines: the header line is dropped
/// unconditionally, every malformed line is silently dropped, and the
/// well-formed lines' records are kept in order.
pub open spec fn parse_list_spec(ls: Seq<Seq<u8>>) -> Seq<(int, int, Seq<u8>)>
    decreases ls.len(),
{
    if ls.len() <= 1 {
        Seq::empty()
    } else {
        parse_list_spec(ls.drop_last()) + (match parse_city_spec(ls.last()) {
            Some(t) => seq![t],
            None => Seq::empty(),
        })
    }
}

/// A digit string's value is nonnegative.
pub proof fn lemma_digits_value_nonneg(t: Seq<u8>)
    requires
        all_digits(t),
    ensures
        digits_value(t) >= 0,
    decreases t.len(),
{
    if t.len() > 0 {
        assert(all_digits(t.drop_last()));
        lemma_digits_value_nonneg(t.drop_last());
    }
}

/// A digit string's value dominates each of its prefixes' values.
pub proof fn lemma_digits_prefix_le(t: Seq<u8>, i: int)
    requires
        all_digits(t),
        0 <= i <= t.len(),
    ensures
        digits_value(t.subrange(0, i)) <= digits_value(t),
    decreases t.len() - i,
{
    if i == t.len() {
        assert(t.subrange(0, i) =~= t);
    } else {
        lemma_digits_prefix_le(t, i + 1);
        let p = t.subrange(0, i);
        let q = t.subrange(0, i + 1);
        assert(q.drop_last() =~= p);
        assert(all_digits(p));
        lemma_digits_value_nonneg(p);
    }
}

/// `pow10` is at least one.
pub proof fn lemma_pow10_pos(k: nat)
    ensures
        pow10(k) >= 1,
    decreases k,
{
    if k > 0 {
        lemma_pow10_pos((k - 1) as nat);
    }
}

/// A fractional digit string's value is nonnegative.
pub proof fn lemma_frac_value_nonneg(t: Seq<u8>)
    requires
        all_digits(t),
    ensures
        frac_value(t) >= 0,
{
    if t.len() >= 4 {
        assert(all_digits(t.subrange(0, 4)));
        lemma_digits_value_nonneg(t.subrange(0, 4));
    } else {
        lemma_digits_value_nonneg(t);
        lemma_pow10_pos((4 - t.len()) as nat);
        assert(digits_value(t) * pow10((4 - t.len()) as nat) >= 0) by (nonlinear_arith)
            requires
                digits_value(t) >= 0,
                pow10((4 - t.len()) as nat) >= 1,
        ;
    }
}

/// First non-space index, executably.
fn skip_spaces(s: &Vec<u8>, from: usize) -> (r: usize)
    requires
        from <= s@.len(),
    ensures
        r as int == first_non_space(s@, from as int),
        from <= r <= s@.len(),
{
    let mut i = from;
    while i < s.len() && (s[i] == 32 || s[i] == 9 || s[i] == 10 || s[i] == 11 || s[i] == 12
        || s[i] == 13)
        invariant
            from <= i <= s@.len(),
            first_non_space(s@, from as int) == first_non_space(s@, i as int),
        decreases s@.len() - i,
    {
        i = i + 1;
    }
    i
}

/// First space index at or after `from`, executably.
fn find_token_end(s: &Vec<u8>, from: usize) -> (r: usize)
    requires
        from <= s@.len(),
    ensures
        r as int == token_end(s@, from as int),
        from <= r <= s@.len(),
{
    let mut i = from;
    while i < s.len() && !(s[i] == 32 || s[i] == 9 || s[i] == 10 || s[i] == 11 || s[i] == 12
        || s[i] == 13)
        invariant
            from <= i <= s@.len(),
            token_end(s@, from as int) == token_end(s@, i as int),
        decreases s@.len() - i,
    {
        i = i + 1;
    }
    i
}

/// First `.` index at or after `from`, executably.
fn find_dot(s: &Vec<u8>, from: usize) -> (r: usize)
    requires
        from <= s@.len(),
    ensures
        r as int == first_dot(s@, from as int),
        from <= r <= s@.len(),
{
    let mut i = from;
    while i < s.len() && s[i] != 46
        invariant
            from <= i <= s@.len(),
            first_dot(s@, from as int) == first_dot(s@, i as int),
        decreases s@.len() - i,
    {
        i = i + 1;
    }
    i
}

/// A fresh copy of the bytes of `s` between `a` and `b`.
fn copy_range(s: &Vec<u8>, a: usize, b: usize) -> (r: Vec<u8>)
    requires
        a <= b <= s@.len(),
    ensures
        r@ == s@.subrange(a as int, b as int),
{
    let mut r: Vec<u8> = Vec::new();
    let mut i = a;
    proof {
        assert(s@.subrange(a as int, a as int) =~= Seq::<u8>::empty());
    }
    while i < b
        invariant
            a <= i <= b <= s@.len(),
            r@ == s@.subrange(a as int, i as int),
        decreases b - i,
    {
        r.push(s[i]);
        proof {
            assert(s@.subrange(a as int, i as int).push(s@[i as int]) =~= s@.subrange(
                a as int,
                i + 1 as int,
            ));
        }
        i = i + 1;
    }
    r
}

/// Parse one coordinate token into fixed-point units.
#[verifier::loop_isolation(false)]
#[verifier::rlimit(100)]
fn parse_coord(t: &Vec<u8>) -> (r: Option<i64>)
    ensures
        match r {
            Some(v) => coord_spec(t@) == Some(v as int) && -COORD_LIMIT <= v <= COORD_LIMIT,
            None => coord_spec(t@) is None,
        },
{
    let n = t.len();
    let mut start: usize = 0;
    let mut neg = false;
    if n > 0 && (t[0] == 43 || t[0] == 45) {
        neg = t[0] == 45;
        start = 1;
    }
    let dot = find_dot(t, start);
    let ghost ip = t@.subrange(start as int, dot as int);
    let ghost fp = if dot < n {
        t@.subrange(dot + 1 as int, n as int)
    } else {
        Seq::<u8>::empty()
    };

    // integer part: validate digits and accumulate, bailing out once the
    // magnitude cannot fit the grid any more
    let mut ival: i64 = 0;
    let mut i = start;
    proof {
        assert(ip.subrange(0, 0) =~= Seq::<u8>::empty());
    }
    while i < dot
        invariant
            start <= i <= dot <= n,
            n == t@.len(),
            ip == t@.subrange(start as int, dot as int),
            forall|j: int| 0 <= j < i - start ==> is_digit(#[trigger] ip[j]),
            0 <= ival <= COORD_LIMIT,
            ival as int == digits_value(ip.subrange(0, i - start)),
        decreases dot - i,
    {
        let b = t[i];
        if b < 48 || b > 57 {
            proof {
                assert(ip[i - start] == t@[i as int]);
                assert(!all_digits(ip));
            }
            return None;
        }
        proof {
            let p = ip.subrange(0, i - start);
            let q = ip.subrange(0, i + 1 - start);
            assert(q.drop_last() =~= p);
            assert(q.last() == t@[i as int]);
        }
        ival = ival * 10 + ((b - 48) as i64);
        i = i + 1;
        if ival > COORD_LIMIT {
            proof {
                if all_digits(ip) && all_digits(fp) {
                    lemma_digits_prefix_le(ip, i - start);
                    lemma_frac_value_nonneg(fp);
                    lemma_digits_value_nonneg(ip);
                    assert(digits_value(ip) * (SCALE as int) >= digits_value(ip))
                        by (nonlinear_arith)
                        requires
                            digits_value(ip) >= 0,
                    ;
                }
            }
            return None;
        }
    }
    proof {
        assert(ip.subrange(0, dot - start) =~= ip);
        assert(all_digits(ip));
    }

    // fractional part: validate digits; the value keeps the first four
    let mut fval: i64 = 0;
    let mut fcnt: usize = 0;
    if dot < n {
        let mut j = dot + 1;
        proof {
            assert(fp.subrange(0, 0) =~= Seq::<u8>::empty());
        }
        while j < n
            invariant
                dot < j <= n,
                n == t@.len(),
                dot < n,
                fp == t@.subrange(dot + 1 as int, n as int),
                forall|q: int| 0 <= q < j - dot - 1 ==> is_digit(#[trigger] fp[q]),
                fcnt == if j - dot - 1 <= 4 { j - dot - 1 } else { 4int },
                0 <= fval <= pow10(fcnt as nat) - 1,
                fval as int == digits_value(fp.subrange(0, fcnt as int)),
            decreases n - j,
        {
            let b = t[j];
            if b < 48 || b > 57 {
                proof {
                    assert(fp[j - dot - 1] == t@[j as int]);
                    assert(!all_digits(fp));
                }
                return None;
            }
            proof {
                assert(fp[j - dot - 1] == t@[j as int]);
            }
            if fcnt < 4 {
                proof {
                    reveal_with_fuel(pow10, 6);
                    assert(pow10(0) == 1 && pow10(1) == 10 && pow10(2) == 100 && pow10(3) == 1000
                        && pow10(4) == 10000);
                    let p = fp.subrange(0, fcnt as int);
                    let q = fp.subrange(0, fcnt + 1 as int);
                    assert(q.drop_last() =~= p);
                    assert(q.last() == fp[j - dot - 1]);
                }
                fval = fval * 10 + ((b - 48) as i64);
                fcnt = fcnt + 1;
            }
            j = j + 1;
        }
        proof {
            assert(all_digits(fp));
        }
    }
    // pad short fractions to four digits
    proof {
        reveal_with_fuel(pow10, 6);
        assert(pow10(0) == 1 && pow10(1) == 10 && pow10(2) == 100 && pow10(3) == 1000 && pow10(4)
            == 10000);
        if dot >= n {
            assert(fp =~= Seq::<u8>::empty());
            assert(fp.subrange(0, 0) =~= fp);
            assert(fcnt == 0 && fp.len() == 0);
        }
        assert(fcnt as int == if fp.len() <= 4 {
            fp.len() as int
        } else {
            4int
        });
        assert(fval as int == digits_value(fp.subrange(0, fcnt as int)));
        assert((fcnt - fcnt) as nat == 0);
        assert(pow10((fcnt - fcnt) as nat) == 1);
        assert(fval as int == digits_value(fp.subrange(0, fcnt as int)) * pow10(
            (fcnt - fcnt) as nat,
        ));
    }
    let mut k: usize = fcnt;
    while k < 4
        invariant
            fcnt <= k <= 4,
            0 <= fval <= pow10(k as nat) - 1,
            fval as int == digits_value(fp.subrange(0, fcnt as int)) * pow10((k - fcnt) as nat),
        decreases 4 - k,
    {
        proof {
            let dv0 = digits_value(fp.subrange(0, fcnt as int));
            let p0 = pow10((k - fcnt) as nat);
            let p1 = pow10((k + 1 - fcnt) as nat);
            assert(p1 == 10 * p0);
            assert(pow10((k + 1) as nat) == 10 * pow10(k as nat));
            assert(dv0 * p1 == (dv0 * p0) * 10) by (nonlinear_arith)
                requires
                    p1 == 10 * p0,
            ;
        }
        fval = fval * 10;
        k = k + 1;
    }
    proof {
        if fp.len() >= 4 {
            assert(fcnt == 4);
            assert(fval as int == frac_value(fp));
        } else {
            assert(fcnt as int == fp.len() as int);
            assert(fp.subrange(0, fcnt as int) =~= fp);
            assert(fval as int == frac_value(fp));
        }
    }

    if dot == start && (dot >= n || n - dot - 1 == 0) {
        // no digit at all
        proof {
            assert(ip.len() + fp.len() == 0);
        }
        return None;
    }
    proof {
        assert(ip.len() + fp.len() > 0);
        lemma_digits_value_nonneg(ip);
        lemma_frac_value_nonneg(fp);
    }
    let mag: i64 = ival * SCALE + fval;
    if mag > COORD_LIMIT {
        return None;
    }
    if neg {
        Some(-mag)
    } else {
        Some(mag)
    }
}

/// Parse one record line into a city, or `None` where the line is
/// malformed; the city's coordinates always lie on the metric's grid.
pub fn parse_city(line: &Vec<u8>) -> (r: Option<City>)
    ensures
        match r {
            Some(c) => parse_city_spec(line@) == Some((c.x as int, c.y as int, c.name@))
                && city_ok(c),
            None => parse_city_spec(line@) is None,
        },
{
    let t1s = skip_spaces(line, 0);
    let t1e = find_token_end(line, t1s);
    let t2s = skip_spaces(line, t1e);
    let t2e = find_token_end(line, t2s);
    let t3s = skip_spaces(line, t2e);
    let t3e = find_token_end(line, t3s);
    if t1s >= line.len() || t2s >= line.len() || t3s >= line.len() {
        return None;
    }
    let tok1 = copy_range(line, t1s, t1e);
    let tok2 = copy_range(line, t2s, t2e);
    let x = match parse_coord(&tok1) {
        Some(v) => v,
        None => {
            return None;
        },
    };
    let y = match parse_coord(&tok2) {
        Some(v) => v,
        None => {
            return None;
        },
    };
    let name = copy_range(line, t3s, t3e);
    Some(City { x, y, name })
}

/// Spec view of a city as its parsed record.
pub open spec fn city_record(c: City) -> (int, int, Seq<u8>) {
    (c.x as int, c.y as int, c.name@)
}

/// Spec view of a city list as its parsed records.
pub open spec fn records_of(s: Seq<City>) -> Seq<(int, int, Seq<u8>)> {
    s.map_values(|c: City| city_record(c))
}

/// Spec view of a line list as its byte sequences.
pub open spec fn views_of(ls: Seq<Vec<u8>>) -> Seq<Seq<u8>> {
    ls.map_values(|l: Vec<u8>| l@)
}

/// Parse a whole record list: the first line is a header and is dropped
/// unconditionally; each malformed line is silently dropped; the cities of
/// the well-formed lines are returned in input order.
pub fn parse_city_list(lines: &Vec<Vec<u8>>) -> (r: Vec<City>)
    ensures
        records_of(r@) == parse_list_spec(views_of(lines@)),
        forall|i: int| 0 <= i < r@.len() ==> city_ok(#[trigger] r@[i]),
{
    let ghost vs = views_of(lines@);
    let mut r: Vec<City> = Vec::new();
    let mut i: usize = 1;
    proof {
        assert(records_of(r@) =~= Seq::<(int, int, Seq<u8>)>::empty());
        if vs.len() >= 1 {
            assert(parse_list_spec(vs.subrange(0, 1)) == Seq::<(int, int, Seq<u8>)>::empty());
        }
        if vs.len() <= 1 {
            assert(parse_list_spec(vs) == Seq::<(int, int, Seq<u8>)>::empty());
            assert(records_of(r@) =~= parse_list_spec(vs));
        }
    }
    while i < lines.len()
        invariant
            1 <= i,
            i <= lines@.len() || i == 1,
            vs == views_of(lines@),
            vs.len() == lines@.len(),
            i <= vs.len() ==> records_of(r@) == parse_list_spec(vs.subrange(0, i as int)),
            vs.len() <= 1 ==> records_of(r@) == parse_list_spec(vs),
            forall|q: int| 0 <= q < r@.len() ==> city_ok(#[trigger] r@[q]),
        decreases lines@.len() - i,
    {
        let ghost oldr = r@;
        let parsed = parse_city(&lines[i]);
        proof {
            assert(vs[i as int] == lines@[i as int]@);
        }
        match parsed {
            Some(c) => {
                let ghost cg = c;
                r.push(c);
                proof {
                    assert(r@ == oldr.push(cg));
                    assert(records_of(r@) =~= records_of(oldr).push(city_record(cg)));
                }
            },
            None => {},
        }
        proof {
            let pre = vs.subrange(0, i as int);
            let post = vs.subrange(0, i + 1 as int);
            assert(post.drop_last() =~= pre);
            assert(post.last() == vs[i as int]);
        }
        i = i + 1;
    }
    proof {
        if vs.len() >= 1 {
            assert(vs.subrange(0, vs.len() as int) =~= vs);
        } else {
            assert(parse_list_spec(vs) == Seq::<(int, int, Seq<u8>)>::empty());
        }
    }
    r
}

} // verus!
