//! The on-disk cache document: one JSON object `{"age":N,"coins":[...]}`
//! holding the snapshot's fetch time and its points, each point a JSON
//! object `{"symbol":"...","price":"..."}`. The encoder writes exactly this
//! canonical form; the parser accepts exactly it, and anything else counts
//! as a corrupt document.

use vstd::prelude::*;

use crate::model::PricePoint;
use crate::model::Snapshot;
use crate::model::plain_char;
use crate::model::plain_text;
use crate::model::points_model;

verus! {

// ---------------------------------------------------------------------------
// Decimal digits
// ---------------------------------------------------------------------------

pub open spec fn is_digit(c: char) -> bool {
    48 <= c as u32 && c as u32 <= 57
}

pub open spec fn digit_val(c: char) -> nat {
    (c as u32 - 48) as nat
}

/// The value of a digit string, most significant digit first.
pub open spec fn digits_val(s: Seq<char>) -> nat
    decreases s.len(),
{
    if s.len() == 0 {
        0
    } else {
        digits_val(s.drop_last()) * 10 + digit_val(s.last())
    }
}

pub open spec fn digit_char(d: nat) -> char {
    if d == 0 {
        '0'
    } else if d == 1 {
        '1'
    } else if d == 2 {
        '2'
    } else if d == 3 {
        '3'
    } else if d == 4 {
        '4'
    } else if d == 5 {
        '5'
    } else if d == 6 {
        '6'
    } else if d == 7 {
        '7'
    } else if d == 8 {
        '8'
    } else {
        '9'
    }
}

/// The canonical decimal text of a number: no sign, no leading zero except
/// for the number zero itself.
pub open spec fn dec_rep(n: nat) -> Seq<char>
    decreases n,
{
    if n < 10 {
        seq![digit_char(n)]
    } else {
        dec_rep(n / 10).push(digit_char(n % 10))
    }
}

pub(crate) fn digit_str(d: u64) -> (r: &'static str)
    requires
        d < 10,
    ensures
        r@ == seq![digit_char(d as nat)],
{
    let r: &'static str = match d {
        0 => "0",
        1 => "1",
        2 => "2",
        3 => "3",
        4 => "4",
        5 => "5",
        6 => "6",
        7 => "7",
        8 => "8",
        _ => "9",
    };
    proof {
        reveal_strlit("0");
        reveal_strlit("1");
        reveal_strlit("2");
        reveal_strlit("3");
        reveal_strlit("4");
        reveal_strlit("5");
        reveal_strlit("6");
        reveal_strlit("7");
        reveal_strlit("8");
        reveal_strlit("9");
        assert(r@ =~= seq![digit_char(d as nat)]);
    }
    r
}

/// Render a number as canonical decimal text.
pub fn u64_to_dec(n: u64) -> (r: String)
    ensures
        r@ == dec_rep(n as nat),
    decreases n,
{
    if n < 10 {
        String::from_str(digit_str(n))
    } else {
        let mut s = u64_to_dec(n / 10);
        s.append(digit_str(n % 10));
        proof {
            assert(s@ =~= dec_rep((n / 10) as nat).push(digit_char((n % 10) as nat)));
        }
        s
    }
}

// ---------------------------------------------------------------------------
// The document grammar, as character sequences
// ---------------------------------------------------------------------------

pub open spec fn lit_age() -> Seq<char> {
    seq!['{', '"', 'a', 'g', 'e', '"', ':']
}

pub open spec fn lit_coins() -> Seq<char> {
    seq![',', '"', 'c', 'o', 'i', 'n', 's', '"', ':', '[']
}

pub open spec fn lit_close() -> Seq<char> {
    seq![']', '}']
}

pub open spec fn lit_sym() -> Seq<char> {
    seq!['{', '"', 's', 'y', 'm', 'b', 'o', 'l', '"', ':', '"']
}

pub open spec fn lit_mid() -> Seq<char> {
    seq!['"', ',', '"', 'p', 'r', 'i', 'c', 'e', '"', ':', '"']
}

pub open spec fn lit_endpt() -> Seq<char> {
    seq!['"', '}']
}

/// One point, encoded: `{"symbol":"SYM","price":"PRICE"}`.
pub open spec fn enc_point(sym: Seq<char>, price: Seq<char>) -> Seq<char> {
    lit_sym() + sym + lit_mid() + price + lit_endpt()
}

/// A point list, encoded: the points in order, separated by commas.
pub open spec fn enc_points(pts: Seq<(Seq<char>, Seq<char>)>) -> Seq<char>
    decreases pts.len(),
{
    if pts.len() == 0 {
        Seq::empty()
    } else if pts.len() == 1 {
        enc_point(pts[0].0, pts[0].1)
    } else {
        enc_points(pts.drop_last()) + seq![','] + enc_point(pts.last().0, pts.last().1)
    }
}

/// The whole document: `{"age":AGE,"coins":[POINTS]}`.
pub open spec fn enc_doc(age: u64, pts: Seq<(Seq<char>, Seq<char>)>) -> Seq<char> {
    lit_age() + dec_rep(age as nat) + lit_coins() + enc_points(pts) + lit_close()
}

// ---------------------------------------------------------------------------
// Encoding
// ---------------------------------------------------------------------------

fn append_point(out: &mut String, p: &PricePoint)
    ensures
        final(out)@ == old(out)@ + enc_point(p.symbol@, p.price@),
{
    out.append("{\"symbol\":\"");
    out.append(p.symbol.as_str());
    out.append("\",\"price\":\"");
    out.append(p.price.as_str());
    out.append("\"}");
    proof {
        reveal_strlit("{\"symbol\":\"");
        reveal_strlit("\",\"price\":\"");
        reveal_strlit("\"}");
        assert("{\"symbol\":\""@ =~= lit_sym());
        assert("\",\"price\":\""@ =~= lit_mid());
        assert("\"}"@ =~= lit_endpt());
        assert(final(out)@ =~= old(out)@ + enc_point(p.symbol@, p.price@));
    }
}

/// Encode a snapshot as the cache document that stands for it.
pub fn encode_snapshot(snap: &Snapshot) -> (r: String)
    ensures
        r@ == enc_doc(snap.fetched_at, points_model(snap.points@)),
{
    let ghost pm = points_model(snap.points@);
    let mut out = String::from_str("{\"age\":");
    proof {
        reveal_strlit("{\"age\":");
        assert(out@ =~= lit_age());
    }
    let num = u64_to_dec(snap.fetched_at);
    out.append(num.as_str());
    out.append(",\"coins\":[");
    proof {
        reveal_strlit(",\"coins\":[");
        assert(out@ =~= lit_age() + dec_rep(snap.fetched_at as nat) + lit_coins());
    }
    let ghost head = lit_age() + dec_rep(snap.fetched_at as nat) + lit_coins();
    let mut i: usize = 0;
    while i < snap.points.len()
        invariant
            i <= snap.points.len(),
            pm == points_model(snap.points@),
            pm.len() == snap.points@.len(),
            out@ == head + enc_points(pm.take(i as int)),
        decreases snap.points.len() - i,
    {
        if i > 0 {
            out.append(",");
            proof {
                reveal_strlit(",");
            }
        }
        append_point(&mut out, &snap.points[i]);
        proof {
            let t = pm.take(i + 1 as int);
            assert(t.drop_last() =~= pm.take(i as int));
            assert(t.last() == pm[i as int]);
            assert(pm[i as int] == snap.points@[i as int].model());
            if i == 0 {
                assert(t.len() == 1);
                assert(t[0] == pm[0]);
                assert(out@ =~= head + enc_points(t));
            } else {
                assert(out@ =~= head + enc_points(t));
            }
        }
        i += 1;
    }
    out.append("]}");
    proof {
        reveal_strlit("]}");
        assert(pm.take(pm.len() as int) =~= pm);
        assert(out@ =~= enc_doc(snap.fetched_at, pm));
    }
    out
}

// ---------------------------------------------------------------------------
// Parsing: the spec-level parser
// ---------------------------------------------------------------------------

/// The literal `lit` stands in `s` at position `i`.
pub open spec fn spec_match_lit(s: Seq<char>, i: int, lit: Seq<char>) -> bool {
    0 <= i && i + lit.len() <= s.len() && s.subrange(i, i + lit.len()) == lit
}

/// The end of the digit run that starts at `i`.
pub open spec fn digit_run_end(s: Seq<char>, i: int) -> int
    decreases s.len() - i,
{
    if 0 <= i && i < s.len() && is_digit(s[i]) {
        digit_run_end(s, i + 1)
    } else {
        i
    }
}

/// A canonical number at position `i`: a nonempty digit run with no
/// superfluous leading zero, whose value fits in a `u64`. The parse is
/// `None` exactly when one of those fails.
pub open spec fn spec_parse_u64(s: Seq<char>, i: int) -> Option<(u64, int)> {
    let end = digit_run_end(s, i);
    let digits = s.subrange(i, end);
    if end == i {
        None
    } else if s[i] == '0' && end > i + 1 {
        None
    } else if digits_val(digits) > u64::MAX {
        None
    } else {
        Some((digits_val(digits) as u64, end))
    }
}

/// The body of a JSON string starting at `i`: the plain characters up to
/// the closing quote. `None` when no closing quote comes, or when a
/// character that would need an escape stands in the way.
pub open spec fn spec_scan_str(s: Seq<char>, i: int) -> Option<Seq<char>>
    decreases s.len() - i,
{
    if i < 0 || i >= s.len() {
        None
    } else if s[i] == '"' {
        Some(Seq::empty())
    } else if plain_char(s[i]) {
        match spec_scan_str(s, i + 1) {
            Some(t) => Some(seq![s[i]] + t),
            None => None,
        }
    } else {
        None
    }
}

/// How many characters an encoded point occupies.
pub open spec fn point_len(pt: (Seq<char>, Seq<char>)) -> int {
    24 + pt.0.len() as int + pt.1.len() as int
}

/// One encoded point at position `i`.
pub open spec fn spec_parse_point(s: Seq<char>, i: int) -> Option<(Seq<char>, Seq<char>)> {
    if spec_match_lit(s, i, lit_sym()) {
        match spec_scan_str(s, i + lit_sym().len()) {
            Some(sym) => {
                let j2 = i + lit_sym().len() + sym.len();
                if spec_match_lit(s, j2, lit_mid()) {
                    match spec_scan_str(s, j2 + lit_mid().len()) {
                        Some(price) => {
                            if spec_match_lit(s, j2 + lit_mid().len() + price.len(), lit_endpt()) {
                                Some((sym, price))
                            } else {
                                None
                            }
                        },
                        None => None,
                    }
                } else {
                    None
                }
            },
            None => None,
        }
    } else {
        None
    }
}

/// A nonempty comma-separated point list at position `i`, together with
/// the position just past it.
pub open spec fn spec_parse_points(s: Seq<char>, i: int) -> Option<(Seq<(Seq<char>, Seq<char>)>, int)>
    decreases s.len() - i,
{
    match spec_parse_point(s, i) {
        Some(pt) => {
            let j = i + point_len(pt);
            if j < s.len() && s[j] == ',' {
                match spec_parse_points(s, j + 1) {
                    Some((rest, k)) => Some((seq![pt] + rest, k)),
                    None => None,
                }
            } else {
                Some((seq![pt], j))
            }
        },
        None => None,
    }
}

/// The whole cache document, which must span the string exactly.
pub open spec fn spec_parse_doc(s: Seq<char>) -> Option<(u64, Seq<(Seq<char>, Seq<char>)>)> {
    if spec_match_lit(s, 0, lit_age()) {
        match spec_parse_u64(s, lit_age().len() as int) {
            Some((age, j)) => {
                if spec_match_lit(s, j, lit_coins()) {
                    let j2 = j + lit_coins().len();
                    if j2 < s.len() && s[j2] == ']' {
                        if s.len() == j2 + 2 && spec_match_lit(s, j2, lit_close()) {
                            Some((age, Seq::empty()))
                        } else {
                            None
                        }
                    } else {
                        match spec_parse_points(s, j2) {
                            Some((pts, k)) => {
                                if s.len() == k + 2 && spec_match_lit(s, k, lit_close()) {
                                    Some((age, pts))
                                } else {
                                    None
                                }
                            },
                            None => None,
                        }
                    }
                } else {
                    None
                }
            },
            None => None,
        }
    } else {
        None
    }
}

// ---------------------------------------------------------------------------
// Parsing: lemmas
// ---------------------------------------------------------------------------

proof fn lemma_digit_run(s: Seq<char>, i: int)
    requires
        0 <= i <= s.len(),
    ensures
        i <= digit_run_end(s, i) <= s.len(),
        forall|k: int| i <= k < digit_run_end(s, i) ==> is_digit(s[k]),
        digit_run_end(s, i) < s.len() ==> !is_digit(s[digit_run_end(s, i)]),
    decreases s.len() - i,
{
    if i < s.len() && is_digit(s[i]) {
        lemma_digit_run(s, i + 1);
    }
}

/// A longer digit prefix never has a smaller value.
pub(crate) proof fn lemma_digits_val_mono(s: Seq<char>, i: int, j: int, m: int)
    requires
        0 <= i <= j <= m <= s.len(),
    ensures
        digits_val(s.subrange(i, m)) >= digits_val(s.subrange(i, j)),
    decreases m - j,
{
    if j < m {
        lemma_digits_val_mono(s, i, j, m - 1);
        let a = s.subrange(i, m);
        assert(a.drop_last() =~= s.subrange(i, m - 1));
        assert(digits_val(a) == digits_val(s.subrange(i, m - 1)) * 10 + digit_val(a.last()));
    }
}

proof fn lemma_scan_str_found(s: Seq<char>, i: int, j: int)
    requires
        0 <= i <= j < s.len(),
        s[j] == '"',
        forall|k: int| i <= k < j ==> plain_char(s[k]),
    ensures
        spec_scan_str(s, i) == Some(s.subrange(i, j)),
    decreases j - i,
{
    if i == j {
        assert(s.subrange(i, j) =~= Seq::<char>::empty());
    } else {
        lemma_scan_str_found(s, i + 1, j);
        assert(seq![s[i]] + s.subrange(i + 1, j) =~= s.subrange(i, j));
    }
}

proof fn lemma_scan_str_none(s: Seq<char>, i: int, j: int)
    requires
        0 <= i <= j <= s.len(),
        forall|k: int| i <= k < j ==> plain_char(s[k]),
        j == s.len() || (s[j] != '"' && !plain_char(s[j])),
    ensures
        spec_scan_str(s, i) is None,
    decreases j - i,
{
    if i < j {
        lemma_scan_str_none(s, i + 1, j);
    }
}

// ---------------------------------------------------------------------------
// The round trip: parsing undoes encoding
// ---------------------------------------------------------------------------

proof fn lemma_dec_rep(n: nat)
    ensures
        dec_rep(n).len() >= 1,
        forall|i: int| 0 <= i < dec_rep(n).len() ==> is_digit(#[trigger] dec_rep(n)[i]),
        digits_val(dec_rep(n)) == n,
        n > 0 ==> dec_rep(n)[0] != '0',
        n >= 10 <==> dec_rep(n).len() >= 2,
    decreases n,
{
    if n < 10 {
        assert(digit_val(digit_char(n)) == n);
        assert(dec_rep(n) == seq![digit_char(n)]);
        assert(dec_rep(n).last() == digit_char(n));
        assert(dec_rep(n).drop_last() =~= Seq::<char>::empty());
        assert(digits_val(dec_rep(n).drop_last()) == 0);
        assert(digits_val(dec_rep(n)) == digits_val(dec_rep(n).drop_last()) * 10 + digit_val(
            dec_rep(n).last(),
        ));
    } else {
        lemma_dec_rep(n / 10);
        let head = dec_rep(n / 10);
        let c = digit_char(n % 10);
        assert(dec_rep(n) == head.push(c));
        assert(dec_rep(n).drop_last() =~= head);
        assert(dec_rep(n).last() == c);
        assert(digit_val(c) == n % 10);
        assert(digits_val(dec_rep(n)) == digits_val(head) * 10 + digit_val(c));
        assert((n / 10) * 10 + n % 10 == n) by {
            vstd::arithmetic::div_mod::lemma_fundamental_div_mod(n as int, 10);
        }
        assert(dec_rep(n)[0] == head[0]);
    }
}

proof fn lemma_digit_run_exact(s: Seq<char>, i: int, j: int)
    requires
        0 <= i <= j <= s.len(),
        forall|k: int| i <= k < j ==> is_digit(#[trigger] s[k]),
        j == s.len() || !is_digit(s[j]),
    ensures
        digit_run_end(s, i) == j,
    decreases j - i,
{
    if i < j {
        lemma_digit_run_exact(s, i + 1, j);
    }
}

/// Where the text holds a canonically rendered number followed by a
/// non-digit, the number parser finds exactly that number.
proof fn lemma_parse_u64_enc(s: Seq<char>, i: int, n: u64)
    requires
        0 <= i,
        i + dec_rep(n as nat).len() <= s.len(),
        s.subrange(i, i + dec_rep(n as nat).len()) == dec_rep(n as nat),
        i + dec_rep(n as nat).len() == s.len() || !is_digit(s[i + dec_rep(n as nat).len()]),
    ensures
        spec_parse_u64(s, i) == Some((n, i + dec_rep(n as nat).len())),
{
    lemma_dec_rep(n as nat);
    let d = dec_rep(n as nat);
    let dl = d.len() as int;
    let j = i + dl;
    assert forall|k: int| i <= k < j implies is_digit(#[trigger] s[k]) by {
        assert(s.subrange(i, j)[k - i] == s[k]);
        assert(d[k - i] == s[k]);
    }
    lemma_digit_run_exact(s, i, j);
    assert(s.subrange(i, j) == d);
    assert(digits_val(s.subrange(i, j)) == n);
    assert(s[i] == d[0]);
    if dl > 1 {
        assert(n >= 10);
        assert(s[i] != '0');
    }
}

/// Where the text holds one encoded point, the point parser finds it.
#[verifier::rlimit(80)]
proof fn lemma_parse_point_enc(s: Seq<char>, i: int, sym: Seq<char>, price: Seq<char>)
    requires
        plain_text(sym),
        plain_text(price),
        0 <= i,
        i + 24 + sym.len() <= s.len(),
        i + 24 + sym.len() + price.len() <= s.len(),
        s.subrange(i, i + 24 + sym.len() + price.len()) == enc_point(sym, price),
    ensures
        spec_parse_point(s, i) == Some((sym, price)),
{
    let e = enc_point(sym, price);
    let sl = sym.len() as int;
    let pl = price.len() as int;
    let el = 24 + sl + pl;
    assert(e.len() == el);
    assert forall|t: int| 0 <= t < el implies s[i + t] == e[t] by {
        assert(s.subrange(i, i + el)[t] == s[i + t]);
    }
    assert(spec_match_lit(s, i, lit_sym())) by {
        assert forall|t: int| 0 <= t < 11 implies s.subrange(i, i + 11)[t] == lit_sym()[t] by {
            assert(s[i + t] == e[t]);
            assert(e[t] == lit_sym()[t]);
        }
        assert(s.subrange(i, i + 11) =~= lit_sym());
    }
    let j1 = i + 11;
    let j2 = j1 + sl;
    assert(s[j2] == e[11 + sl]);
    assert(e[11 + sl] == lit_mid()[0]);
    assert forall|k: int| j1 <= k < j2 implies plain_char(s[k]) by {
        assert(s[k] == e[k - i]);
        assert(e[k - i] == sym[k - j1]);
    }
    lemma_scan_str_found(s, j1, j2);
    assert forall|t: int| 0 <= t < sl implies s.subrange(j1, j2)[t] == sym[t] by {
        assert(s[j1 + t] == e[11 + t]);
        assert(e[11 + t] == sym[t]);
    }
    assert(s.subrange(j1, j2) =~= sym);
    assert(spec_match_lit(s, j2, lit_mid())) by {
        assert forall|t: int| 0 <= t < 11 implies s.subrange(j2, j2 + 11)[t] == lit_mid()[t] by {
            assert(s[j2 + t] == e[11 + sl + t]);
            assert(e[11 + sl + t] == lit_mid()[t]);
        }
        assert(s.subrange(j2, j2 + 11) =~= lit_mid());
    }
    let j3 = j2 + 11;
    let j4 = j3 + pl;
    assert(s[j4] == e[22 + sl + pl]);
    assert(e[22 + sl + pl] == lit_endpt()[0]);
    assert forall|k: int| j3 <= k < j4 implies plain_char(s[k]) by {
        assert(s[k] == e[k - i]);
        assert(e[k - i] == price[k - j3]);
    }
    lemma_scan_str_found(s, j3, j4);
    assert forall|t: int| 0 <= t < pl implies s.subrange(j3, j4)[t] == price[t] by {
        assert(s[j3 + t] == e[22 + sl + t]);
        assert(e[22 + sl + t] == price[t]);
    }
    assert(s.subrange(j3, j4) =~= price);
    assert(spec_match_lit(s, j4, lit_endpt())) by {
        assert forall|t: int| 0 <= t < 2 implies s.subrange(j4, j4 + 2)[t] == lit_endpt()[t] by {
            assert(s[j4 + t] == e[22 + sl + pl + t]);
            assert(e[22 + sl + pl + t] == lit_endpt()[t]);
        }
        assert(s.subrange(j4, j4 + 2) =~= lit_endpt());
    }
}

/// The encoded list seen from its first point: that point, then a comma
/// and the encoded rest when more follow.
proof fn lemma_enc_points_first(pts: Seq<(Seq<char>, Seq<char>)>)
    requires
        pts.len() >= 1,
    ensures
        pts.len() == 1 ==> enc_points(pts) == enc_point(pts[0].0, pts[0].1),
        pts.len() > 1 ==> enc_points(pts) == enc_point(pts[0].0, pts[0].1) + seq![',']
            + enc_points(pts.drop_first()),
    decreases pts.len(),
{
    if pts.len() > 1 {
        lemma_enc_points_first(pts.drop_last());
        let rest = pts.drop_first();
        assert(pts.drop_last()[0] == pts[0]);
        if pts.len() == 2 {
            assert(pts.drop_last() =~= seq![pts[0]]);
            assert(rest =~= seq![pts[1]]);
            assert(pts.last() == pts[1]);
            assert(enc_points(rest) == enc_point(rest[0].0, rest[0].1));
            assert(enc_points(pts) =~= enc_point(pts[0].0, pts[0].1) + seq![','] + enc_points(
                rest,
            ));
        } else {
            assert(pts.drop_last().drop_first() =~= rest.drop_last());
            assert(rest.len() >= 1);
            lemma_enc_points_first(rest);
            assert(rest.last() == pts.last());
            assert(rest[0] == pts[1]);
            assert(pts.drop_last()[0] == pts[0]);
            assert(enc_points(pts) == enc_points(pts.drop_last()) + seq![','] + enc_point(
                pts.last().0,
                pts.last().1,
            ));
            assert(enc_points(pts.drop_last()) == enc_point(pts[0].0, pts[0].1) + seq![',']
                + enc_points(rest.drop_last()));
            assert(enc_points(rest) == enc_points(rest.drop_last()) + seq![','] + enc_point(
                rest.last().0,
                rest.last().1,
            ));
            assert(enc_points(pts) =~= enc_point(pts[0].0, pts[0].1) + seq![','] + enc_points(
                rest,
            ));
        }
    }
}

/// Every point in the list is well formed.
pub open spec fn plain_points(pts: Seq<(Seq<char>, Seq<char>)>) -> bool {
    forall|i: int|
        0 <= i < pts.len() ==> plain_text((#[trigger] pts[i]).0) && plain_text(pts[i].1)
}

/// Where the text holds an encoded nonempty point list followed by the
/// closing bracket, the list parser finds exactly those points.
#[verifier::rlimit(80)]
proof fn lemma_parse_points_enc(s: Seq<char>, i: int, pts: Seq<(Seq<char>, Seq<char>)>)
    requires
        pts.len() >= 1,
        plain_points(pts),
        0 <= i,
        i + enc_points(pts).len() < s.len(),
        s.subrange(i, i + enc_points(pts).len()) == enc_points(pts),
        s[i + enc_points(pts).len()] == ']',
    ensures
        spec_parse_points(s, i) == Some((pts, i + enc_points(pts).len())),
    decreases pts.len(),
{
    let e = enc_points(pts);
    let el = e.len() as int;
    lemma_enc_points_first(pts);
    let p0 = pts[0];
    let e0 = enc_point(p0.0, p0.1);
    let l0 = e0.len() as int;
    assert forall|t: int| 0 <= t < el implies s[i + t] == e[t] by {
        assert(s.subrange(i, i + el)[t] == s[i + t]);
    }
    let j = i + l0;
    if pts.len() == 1 {
        assert(e == e0);
        lemma_parse_point_enc(s, i, p0.0, p0.1);
        assert(j == i + el);
        assert(s[j] == ']');
        assert(j < s.len());
        assert(seq![p0] =~= pts);
    } else {
        let rest = pts.drop_first();
        assert(e == e0 + seq![','] + enc_points(rest));
        assert(el == l0 + 1 + enc_points(rest).len());
        assert forall|t: int| 0 <= t < l0 implies s.subrange(i, i + l0)[t] == e0[t] by {
            assert(s[i + t] == e[t]);
            assert(e[t] == e0[t]);
        }
        assert(s.subrange(i, i + l0) =~= e0);
        assert(plain_text(p0.0) && plain_text(p0.1));
        lemma_parse_point_enc(s, i, p0.0, p0.1);
        assert(s[j] == e[l0]);
        assert(e[l0] == ',');
        assert(j < s.len());
        let r = enc_points(rest);
        assert forall|t: int| 0 <= t < r.len() implies s.subrange(j + 1, j + 1 + r.len())[t]
            == r[t] by {
            assert(s[j + 1 + t] == e[l0 + 1 + t]);
            assert(e[l0 + 1 + t] == r[t]);
        }
        assert(s.subrange(j + 1, j + 1 + r.len()) =~= r);
        assert(plain_points(rest)) by {
            assert(forall|k: int| 0 <= k < rest.len() ==> rest[k] == pts[k + 1]);
        }
        assert(s[j + 1 + r.len()] == ']');
        lemma_parse_points_enc(s, j + 1, rest);
        assert(seq![p0] + rest =~= pts);
    }
}

/// Round-trip law: the cache parser undoes the cache encoder. Whatever
/// snapshot the refresh engine persists — any fetch time, any points whose
/// text can stand in a JSON string — reading the document back yields that
/// snapshot, not merely some snapshot.
#[verifier::rlimit(80)]
pub proof fn lemma_parse_undoes_encode(age: u64, pts: Seq<(Seq<char>, Seq<char>)>)
    requires
        plain_points(pts),
    ensures
        spec_parse_doc(enc_doc(age, pts)) == Some((age, pts)),
{
    let s = enc_doc(age, pts);
    lemma_dec_rep(age as nat);
    let d = dec_rep(age as nat);
    let dl = d.len() as int;
    let e = enc_points(pts);
    let el = e.len() as int;
    assert(s.len() == 7 + dl + 10 + el + 2);
    assert(s =~= lit_age() + d + lit_coins() + e + lit_close());
    assert(spec_match_lit(s, 0, lit_age())) by {
        assert forall|t: int| 0 <= t < 7 implies s.subrange(0, 7)[t] == lit_age()[t] by {
            assert(s[t] == lit_age()[t]);
        }
        assert(s.subrange(0, 7) =~= lit_age());
    }
    assert forall|t: int| 0 <= t < dl implies s.subrange(7, 7 + dl)[t] == d[t] by {
        assert(s[7 + t] == d[t]);
    }
    assert(s.subrange(7, 7 + dl) =~= d);
    assert(s[7 + dl] == lit_coins()[0]);
    assert(!is_digit(','));
    lemma_parse_u64_enc(s, 7, age);
    let j = 7 + dl;
    assert(spec_parse_u64(s, 7) == Some((age, j)));
    assert(spec_match_lit(s, j, lit_coins())) by {
        assert forall|t: int| 0 <= t < 10 implies s.subrange(j, j + 10)[t] == lit_coins()[t] by {
            assert(s[j + t] == lit_coins()[t]);
        }
        assert(s.subrange(j, j + 10) =~= lit_coins());
    }
    let j2 = j + 10;
    if pts.len() == 0 {
        assert(el == 0);
        assert(s[j2] == lit_close()[0]);
        assert(spec_match_lit(s, j2, lit_close())) by {
            assert forall|t: int| 0 <= t < 2 implies s.subrange(j2, j2 + 2)[t]
                == lit_close()[t] by {
                assert(s[j2 + t] == lit_close()[t]);
            }
            assert(s.subrange(j2, j2 + 2) =~= lit_close());
        }
        assert(s.len() == j2 + 2);
        assert(Seq::<(Seq<char>, Seq<char>)>::empty() =~= pts);
    } else {
        lemma_enc_points_first(pts);
        assert(e[0] == lit_sym()[0]);
        assert(s[j2] == e[0]);
        assert(s[j2] != ']');
        assert forall|t: int| 0 <= t < el implies s.subrange(j2, j2 + el)[t] == e[t] by {
            assert(s[j2 + t] == e[t]);
        }
        assert(s.subrange(j2, j2 + el) =~= e);
        assert(s[j2 + el] == lit_close()[0]);
        lemma_parse_points_enc(s, j2, pts);
        let k = j2 + el;
        assert(spec_match_lit(s, k, lit_close())) by {
            assert forall|t: int| 0 <= t < 2 implies s.subrange(k, k + 2)[t] == lit_close()[t] by {
                assert(s[k + t] == lit_close()[t]);
            }
            assert(s.subrange(k, k + 2) =~= lit_close());
        }
        assert(s.len() == k + 2);
    }
}

// ---------------------------------------------------------------------------
// The converse: whatever parses is a canonical encoding
// ---------------------------------------------------------------------------

proof fn lemma_digit_char_val(c: char)
    requires
        is_digit(c),
    ensures
        digit_char(digit_val(c)) == c,
{
}

proof fn lemma_digits_val_pos(d: Seq<char>)
    requires
        d.len() >= 1,
        forall|k: int| 0 <= k < d.len() ==> is_digit(#[trigger] d[k]),
        d[0] != '0',
    ensures
        digits_val(d) >= 1,
    decreases d.len(),
{
    if d.len() == 1 {
        assert(d.last() == d[0]);
        assert(digits_val(d.drop_last()) == 0);
        assert('0' as u32 == 48);
        assert(d[0] as u32 != 48) by {
            if d[0] as u32 == 48 {
                vstd::utf8::char_u32_cast(d[0], 48);
                vstd::utf8::char_u32_cast('0', 48);
            }
        }
        assert(digit_val(d[0]) >= 1);
    } else {
        let front = d.drop_last();
        assert(front[0] == d[0]);
        lemma_digits_val_pos(front);
        assert(digits_val(d) == digits_val(front) * 10 + digit_val(d.last()));
    }
}

/// A nonempty digit string with no superfluous leading zero is the
/// canonical rendering of its own value.
proof fn lemma_dec_rep_of_digits(d: Seq<char>)
    requires
        d.len() >= 1,
        forall|k: int| 0 <= k < d.len() ==> is_digit(#[trigger] d[k]),
        d[0] != '0' || d.len() == 1,
    ensures
        dec_rep(digits_val(d)) == d,
    decreases d.len(),
{
    if d.len() == 1 {
        assert(d.last() == d[0]);
        assert(digits_val(d.drop_last()) == 0);
        assert(digits_val(d) == digit_val(d[0]));
        lemma_digit_char_val(d[0]);
        assert(dec_rep(digits_val(d)) =~= d);
    } else {
        let front = d.drop_last();
        assert(front[0] == d[0]);
        lemma_dec_rep_of_digits(front);
        lemma_digits_val_pos(front);
        let v = digits_val(d);
        assert(v == digits_val(front) * 10 + digit_val(d.last()));
        assert(v >= 10);
        vstd::arithmetic::div_mod::lemma_fundamental_div_mod_converse(
            v as int,
            10,
            digits_val(front) as int,
            digit_val(d.last()) as int,
        );
        assert(v / 10 == digits_val(front));
        assert(v % 10 == digit_val(d.last()));
        lemma_digit_char_val(d.last());
        assert(dec_rep(v) == dec_rep(digits_val(front)).push(digit_char(v % 10)));
        assert(dec_rep(v) =~= d);
    }
}

proof fn lemma_parse_u64_sound(s: Seq<char>, i: int)
    requires
        spec_parse_u64(s, i) is Some,
    ensures
        spec_parse_u64(s, i) matches Some(p) ==> i < p.1 <= s.len() && s.subrange(i, p.1)
            == dec_rep(p.0 as nat),
{
    let end = digit_run_end(s, i);
    assert(end != i);
    assert(0 <= i && i < s.len()) by {
        if !(0 <= i && i < s.len() && is_digit(s[i])) {
            assert(digit_run_end(s, i) == i);
        }
    }
    lemma_digit_run(s, i);
    let d = s.subrange(i, end);
    assert forall|k: int| 0 <= k < d.len() implies is_digit(#[trigger] d[k]) by {
        assert(d[k] == s[i + k]);
    }
    assert(d[0] == s[i]);
    lemma_dec_rep_of_digits(d);
}

proof fn lemma_scan_str_sound(s: Seq<char>, i: int)
    requires
        spec_scan_str(s, i) is Some,
    ensures
        spec_scan_str(s, i) matches Some(t) ==> 0 <= i && i + t.len() < s.len() && plain_text(t)
            && s.subrange(i, i + t.len()) == t && s[i + t.len()] == '"',
    decreases s.len() - i,
{
    let t = spec_scan_str(s, i)->Some_0;
    if s[i] == '"' {
        assert(s.subrange(i, i) =~= t);
    } else {
        lemma_scan_str_sound(s, i + 1);
        let t2 = spec_scan_str(s, i + 1)->Some_0;
        assert(t == seq![s[i]] + t2);
        assert(s.subrange(i, i + t.len()) =~= t);
        assert(plain_text(t)) by {
            assert forall|k: int| 0 <= k < t.len() implies plain_char(t[k]) by {
                if k > 0 {
                    assert(t[k] == t2[k - 1]);
                }
            }
        }
    }
}

#[verifier::rlimit(80)]
proof fn lemma_parse_point_sound(s: Seq<char>, i: int)
    requires
        spec_parse_point(s, i) is Some,
    ensures
        spec_parse_point(s, i) matches Some(pt) ==> plain_text(pt.0) && plain_text(pt.1) && 0 <= i
            && i + point_len(pt) <= s.len() && s.subrange(i, i + point_len(pt)) == enc_point(
            pt.0,
            pt.1,
        ),
{
    let pt = spec_parse_point(s, i)->Some_0;
    let sym = pt.0;
    let price = pt.1;
    let sl = sym.len() as int;
    let pl = price.len() as int;
    let j1 = i + 11;
    let j2 = j1 + sl;
    let j3 = j2 + 11;
    let j4 = j3 + pl;
    lemma_scan_str_sound(s, j1);
    lemma_scan_str_sound(s, j3);
    assert(s.subrange(j1, j2) == sym);
    assert(s.subrange(j3, j4) == price);
    let e = enc_point(sym, price);
    let el = point_len(pt);
    assert(e.len() == el);
    assert(s.subrange(i, i + 11) == lit_sym());
    assert(s.subrange(j2, j2 + 11) == lit_mid());
    assert(s.subrange(j4, j4 + 2) == lit_endpt());
    assert forall|t: int| 0 <= t < el implies s.subrange(i, i + el)[t] == e[t] by {
        assert(s.subrange(i, i + el)[t] == s[i + t]);
        if t < 11 {
            assert(s.subrange(i, i + 11)[t] == s[i + t]);
            assert(e[t] == lit_sym()[t]);
        } else if t < 11 + sl {
            assert(s.subrange(j1, j2)[t - 11] == s[i + t]);
            assert(e[t] == sym[t - 11]);
        } else if t < 22 + sl {
            assert(s.subrange(j2, j2 + 11)[t - 11 - sl] == s[i + t]);
            assert(e[t] == lit_mid()[t - 11 - sl]);
        } else if t < 22 + sl + pl {
            assert(s.subrange(j3, j4)[t - 22 - sl] == s[i + t]);
            assert(e[t] == price[t - 22 - sl]);
        } else {
            assert(s.subrange(j4, j4 + 2)[t - 22 - sl - pl] == s[i + t]);
            assert(e[t] == lit_endpt()[t - 22 - sl - pl]);
        }
    }
    assert(s.subrange(i, i + el) =~= e);
}

#[verifier::rlimit(80)]
proof fn lemma_parse_points_sound(s: Seq<char>, i: int)
    requires
        spec_parse_points(s, i) is Some,
    ensures
        spec_parse_points(s, i) matches Some(r) ==> r.0.len() >= 1 && plain_points(r.0) && 0 <= i
            && r.1 == i + enc_points(r.0).len() && r.1 <= s.len() && s.subrange(i, r.1)
            == enc_points(r.0),
    decreases s.len() - i,
{
    let r = spec_parse_points(s, i)->Some_0;
    let pt = spec_parse_point(s, i)->Some_0;
    lemma_parse_point_sound(s, i);
    let l0 = point_len(pt);
    let j = i + l0;
    let e0 = enc_point(pt.0, pt.1);
    if j < s.len() && s[j] == ',' {
        lemma_parse_points_sound(s, j + 1);
        let rest = spec_parse_points(s, j + 1)->Some_0;
        assert(r.0 == seq![pt] + rest.0);
        assert(r.0.drop_first() =~= rest.0);
        assert(r.0[0] == pt);
        lemma_enc_points_first(r.0);
        assert(enc_points(r.0) == e0 + seq![','] + enc_points(rest.0));
        assert(plain_points(r.0)) by {
            assert forall|k: int|
                0 <= k < r.0.len() implies plain_text((#[trigger] r.0[k]).0) && plain_text(
                r.0[k].1,
            ) by {
                if k > 0 {
                    assert(r.0[k] == rest.0[k - 1]);
                }
            }
        }
        let e = enc_points(r.0);
        let el = e.len() as int;
        assert forall|t: int| 0 <= t < el implies s.subrange(i, i + el)[t] == e[t] by {
            assert(s.subrange(i, i + el)[t] == s[i + t]);
            if t < l0 {
                assert(s.subrange(i, j)[t] == s[i + t]);
                assert(e[t] == e0[t]);
            } else if t == l0 {
                assert(e[t] == ',');
            } else {
                assert(s.subrange(j + 1, rest.1)[t - l0 - 1] == s[i + t]);
                assert(e[t] == enc_points(rest.0)[t - l0 - 1]);
            }
        }
        assert(s.subrange(i, i + el) =~= e);
    } else {
        assert(r.0 =~= seq![pt]);
        assert(r.0[0] == pt);
        lemma_enc_points_first(r.0);
        assert(enc_points(r.0) == e0);
        assert(plain_points(r.0));
    }
}

/// Converse law: whatever text the cache parser accepts is precisely the
/// canonical encoding of what it returns — no two distinct documents stand
/// for one snapshot, and no accepted document differs from what the
/// encoder would write for it.
#[verifier::rlimit(80)]
pub proof fn lemma_encode_undoes_parse(s: Seq<char>)
    requires
        spec_parse_doc(s) is Some,
    ensures
        spec_parse_doc(s) matches Some(p) ==> plain_points(p.1) && s == enc_doc(p.0, p.1),
{
    let p = spec_parse_doc(s)->Some_0;
    let age = p.0;
    let pts = p.1;
    lemma_parse_u64_sound(s, 7);
    let d = dec_rep(age as nat);
    let dl = d.len() as int;
    let j = 7 + dl;
    assert(s.subrange(7, j) == d);
    assert(s.subrange(0, 7) == lit_age());
    assert(s.subrange(j, j + 10) == lit_coins());
    let j2 = j + 10;
    let e = enc_doc(age, pts);
    if j2 < s.len() && s[j2] == ']' {
        assert(pts =~= Seq::<(Seq<char>, Seq<char>)>::empty());
        assert(s.subrange(j2, j2 + 2) == lit_close());
        assert(s.len() == j2 + 2);
        assert(enc_points(pts) == Seq::<char>::empty());
        assert(e.len() == j2 + 2);
        assert forall|t: int| 0 <= t < s.len() implies s[t] == e[t] by {
            if t < 7 {
                assert(s.subrange(0, 7)[t] == s[t]);
                assert(e[t] == lit_age()[t]);
            } else if t < j {
                assert(s.subrange(7, j)[t - 7] == s[t]);
                assert(e[t] == d[t - 7]);
            } else if t < j2 {
                assert(s.subrange(j, j2)[t - j] == s[t]);
                assert(e[t] == lit_coins()[t - j]);
            } else {
                assert(s.subrange(j2, j2 + 2)[t - j2] == s[t]);
                assert(e[t] == lit_close()[t - j2]);
            }
        }
        assert(s =~= e);
    } else {
        lemma_parse_points_sound(s, j2);
        let r = spec_parse_points(s, j2)->Some_0;
        assert(r.0 == pts);
        let k = r.1;
        assert(s.subrange(j2, k) == enc_points(pts));
        assert(s.subrange(k, k + 2) == lit_close());
        assert(s.len() == k + 2);
        let el = enc_points(pts).len() as int;
        assert(e.len() == k + 2);
        assert forall|t: int| 0 <= t < s.len() implies s[t] == e[t] by {
            if t < 7 {
                assert(s.subrange(0, 7)[t] == s[t]);
                assert(e[t] == lit_age()[t]);
            } else if t < j {
                assert(s.subrange(7, j)[t - 7] == s[t]);
                assert(e[t] == d[t - 7]);
            } else if t < j2 {
                assert(s.subrange(j, j2)[t - j] == s[t]);
                assert(e[t] == lit_coins()[t - j]);
            } else if t < k {
                assert(s.subrange(j2, k)[t - j2] == s[t]);
                assert(e[t] == enc_points(pts)[t - j2]);
            } else {
                assert(s.subrange(k, k + 2)[t - k] == s[t]);
                assert(e[t] == lit_close()[t - k]);
            }
        }
        assert(s =~= e);
    }
}

// ---------------------------------------------------------------------------
// Parsing: the executable parser
// ---------------------------------------------------------------------------

fn char_at_is(s: &str, j: usize, c: char) -> (b: bool)
    requires
        j < s@.len(),
    ensures
        b == (s@[j as int] == c),
{
    s.get_char(j) == c
}

fn digit_at(s: &str, j: usize) -> (b: bool)
    requires
        j < s@.len(),
    ensures
        b == is_digit(s@[j as int]),
{
    let c = s.get_char(j);
    let v = c as u32;
    48 <= v && v <= 57
}

fn plain_at(s: &str, j: usize) -> (b: bool)
    requires
        j < s@.len(),
    ensures
        b == plain_char(s@[j as int]),
{
    let c = s.get_char(j);
    let v = c as u32;
    c != '"' && c != '\\' && v >= 32
}

/// Match one literal at position `i`; on success the position just past it.
fn match_lit(s: &str, i: usize, lit: &str) -> (r: Option<usize>)
    requires
        i <= s@.len(),
    ensures
        r is Some <==> spec_match_lit(s@, i as int, lit@),
        r matches Some(j) ==> j as int == i + lit@.len() && j <= s@.len(),
{
    let n = s.unicode_len();
    let m = lit.unicode_len();
    if m > n - i {
        return None;
    }
    let mut k: usize = 0;
    while k < m
        invariant
            k <= m,
            i + m <= n,
            n == s@.len(),
            m == lit@.len(),
            forall|t: int| 0 <= t < k ==> s@[i + t] == lit@[t],
        decreases m - k,
    {
        if s.get_char(i + k) != lit.get_char(k) {
            proof {
                assert(s@.subrange(i as int, i + m as int)[k as int] == s@[i + k]);
            }
            return None;
        }
        k += 1;
    }
    proof {
        assert(s@.subrange(i as int, i + m as int) =~= lit@);
    }
    Some(i + m)
}

/// Parse a canonical number at position `i`.
fn parse_u64(s: &str, i: usize) -> (r: Option<(u64, usize)>)
    requires
        i <= s@.len(),
    ensures
        r is None ==> spec_parse_u64(s@, i as int) is None,
        r matches Some((v, j)) ==> spec_parse_u64(s@, i as int) == Some((v, j as int)) && i < j
            <= s@.len(),
{
    let n = s.unicode_len();
    proof {
        lemma_digit_run(s@, i as int);
    }
    let ghost end = digit_run_end(s@, i as int);
    let mut j: usize = i;
    while j < n && digit_at(s, j)
        invariant
            i <= j <= n,
            n == s@.len(),
            digit_run_end(s@, i as int) == digit_run_end(s@, j as int),
        decreases n - j,
    {
        j += 1;
    }
    proof {
        assert(digit_run_end(s@, j as int) == j as int);
        assert(end == j as int);
    }
    if j == i {
        return None;
    }
    if j > i + 1 && char_at_is(s, i, '0') {
        return None;
    }
    let mut acc: u64 = 0;
    let mut k: usize = i;
    while k < j
        invariant
            i <= k <= j <= n,
            n == s@.len(),
            end == j as int,
            end == digit_run_end(s@, i as int),
            forall|t: int| i <= t < j ==> is_digit(s@[t]),
            acc == digits_val(s@.subrange(i as int, k as int)),
        decreases j - k,
    {
        let c = s.get_char(k);
        proof {
            assert(is_digit(s@[k as int]));
        }
        let d = (c as u32 - 48) as u64;
        proof {
            let t = s@.subrange(i as int, k + 1 as int);
            assert(t.drop_last() =~= s@.subrange(i as int, k as int));
            assert(t.last() == s@[k as int]);
            assert(digits_val(t) == acc * 10 + d);
        }
        let m1 = acc.checked_mul(10);
        if m1.is_none() {
            proof {
                lemma_digits_val_mono(s@, i as int, k + 1 as int, j as int);
            }
            return None;
        }
        let m2 = m1.unwrap().checked_add(d);
        if m2.is_none() {
            proof {
                lemma_digits_val_mono(s@, i as int, k + 1 as int, j as int);
            }
            return None;
        }
        acc = m2.unwrap();
        k += 1;
    }
    Some((acc, j))
}

/// Scan a JSON string body at position `i` up to its closing quote.
fn scan_plain(s: &str, i: usize) -> (r: Option<(String, usize)>)
    requires
        i <= s@.len(),
    ensures
        r is None ==> spec_scan_str(s@, i as int) is None,
        r matches Some((t, j)) ==> spec_scan_str(s@, i as int) == Some(t@) && j as int == i
            + t@.len() && j < s@.len() && s@[j as int] == '"' && plain_text(t@),
{
    let n = s.unicode_len();
    let mut j: usize = i;
    while j < n && plain_at(s, j)
        invariant
            i <= j <= n,
            n == s@.len(),
            forall|k: int| i <= k < j ==> plain_char(s@[k]),
        decreases n - j,
    {
        j += 1;
    }
    if j == n {
        proof {
            lemma_scan_str_none(s@, i as int, j as int);
        }
        return None;
    }
    if !char_at_is(s, j, '"') {
        proof {
            lemma_scan_str_none(s@, i as int, j as int);
        }
        return None;
    }
    proof {
        lemma_scan_str_found(s@, i as int, j as int);
    }
    let sub = s.substring_char(i, j);
    let t = String::from_str(sub);
    proof {
        assert(t@ =~= s@.subrange(i as int, j as int));
        assert forall|k: int| 0 <= k < t@.len() implies plain_char(t@[k]) by {
            assert(t@[k] == s@[i + k]);
        }
    }
    Some((t, j))
}

/// Parse one encoded point at position `i`.
fn parse_point(s: &str, i: usize) -> (r: Option<(PricePoint, usize)>)
    requires
        i <= s@.len(),
    ensures
        r is None ==> spec_parse_point(s@, i as int) is None,
        r matches Some((pt, j)) ==> spec_parse_point(s@, i as int) == Some(
            (pt.symbol@, pt.price@),
        ) && j as int == i + point_len((pt.symbol@, pt.price@)) && i < j <= s@.len() && pt.wf(),
{
    proof {
        reveal_strlit("{\"symbol\":\"");
        reveal_strlit("\",\"price\":\"");
        reveal_strlit("\"}");
        assert("{\"symbol\":\""@ =~= lit_sym());
        assert("\",\"price\":\""@ =~= lit_mid());
        assert("\"}"@ =~= lit_endpt());
    }
    let r1 = match_lit(s, i, "{\"symbol\":\"");
    if r1.is_none() {
        return None;
    }
    let j1 = r1.unwrap();
    let r2 = scan_plain(s, j1);
    if r2.is_none() {
        return None;
    }
    let (sym, j2) = r2.unwrap();
    let r3 = match_lit(s, j2, "\",\"price\":\"");
    if r3.is_none() {
        return None;
    }
    let j3 = r3.unwrap();
    let r4 = scan_plain(s, j3);
    if r4.is_none() {
        return None;
    }
    let (price, j4) = r4.unwrap();
    let r5 = match_lit(s, j4, "\"}");
    if r5.is_none() {
        return None;
    }
    let j5 = r5.unwrap();
    let pt = PricePoint { symbol: sym, price };
    Some((pt, j5))
}

/// Parse a nonempty point list at position `i`.
fn parse_points(s: &str, i: usize) -> (r: Option<(Vec<PricePoint>, usize)>)
    requires
        i <= s@.len(),
    ensures
        r is None ==> spec_parse_points(s@, i as int) is None,
        r matches Some((pts, j)) ==> spec_parse_points(s@, i as int) == Some(
            (points_model(pts@), j as int),
        ) && i < j <= s@.len() && (forall|k: int|
            0 <= k < pts@.len() ==> (#[trigger] pts@[k]).wf()),
    decreases s@.len() - i,
{
    let r1 = parse_point(s, i);
    if r1.is_none() {
        return None;
    }
    let (pt, j) = r1.unwrap();
    let n = s.unicode_len();
    if j < n && char_at_is(s, j, ',') {
        let r2 = parse_points(s, j + 1);
        if r2.is_none() {
            return None;
        }
        let (mut pts, k) = r2.unwrap();
        let ghost rest_model = points_model(pts@);
        pts.insert(0, pt);
        proof {
            assert(points_model(pts@) =~= seq![(pt.symbol@, pt.price@)] + rest_model);
        }
        Some((pts, k))
    } else {
        let mut pts: Vec<PricePoint> = Vec::new();
        pts.push(pt);
        proof {
            assert(points_model(pts@) =~= seq![(pt.symbol@, pt.price@)]);
        }
        Some((pts, j))
    }
}

/// Parse one remote price response: exactly one encoded point spanning
/// the whole body. A malformed body gives `None`, which the fetch cycle
/// counts as that symbol's failure.
pub fn parse_price_point(body: &str) -> (r: Option<PricePoint>)
    ensures
        r is None ==> !(spec_parse_point(body@, 0) matches Some(pt) && point_len(pt)
            == body@.len()),
        r matches Some(pt) ==> spec_parse_point(body@, 0) == Some((pt.symbol@, pt.price@))
            && point_len((pt.symbol@, pt.price@)) == body@.len() && pt.wf(),
{
    match parse_point(body, 0) {
        None => None,
        Some((pt, j)) => {
            if j == body.unicode_len() {
                Some(pt)
            } else {
                None
            }
        },
    }
}

/// Parse a cache document. The result is exactly what the spec-level
/// parser says of the text: a snapshot when the text is a canonical cache
/// document, and `None` for anything else, which the refresh engine treats
/// as a cache miss.
pub fn parse_snapshot(doc: &str) -> (r: Option<Snapshot>)
    ensures
        r is None ==> spec_parse_doc(doc@) is None,
        r matches Some(snap) ==> spec_parse_doc(doc@) == Some(
            (snap.fetched_at, points_model(snap.points@)),
        ) && snap.wf(),
{
    proof {
        reveal_strlit("{\"age\":");
        reveal_strlit(",\"coins\":[");
        reveal_strlit("]}");
        assert("{\"age\":"@ =~= lit_age());
        assert(",\"coins\":["@ =~= lit_coins());
        assert("]}"@ =~= lit_close());
    }
    let r1 = match_lit(doc, 0, "{\"age\":");
    if r1.is_none() {
        return None;
    }
    let i1 = r1.unwrap();
    let r2 = parse_u64(doc, i1);
    if r2.is_none() {
        return None;
    }
    let (age, j) = r2.unwrap();
    let r3 = match_lit(doc, j, ",\"coins\":[");
    if r3.is_none() {
        return None;
    }
    let j2 = r3.unwrap();
    let n = doc.unicode_len();
    if j2 < n && char_at_is(doc, j2, ']') {
        let r4 = match_lit(doc, j2, "]}");
        if r4.is_none() {
            return None;
        }
        let e = r4.unwrap();
        if e == n {
            Some(Snapshot { fetched_at: age, points: Vec::new() })
        } else {
            None
        }
    } else {
        let r4 = parse_points(doc, j2);
        if r4.is_none() {
            return None;
        }
        let (pts, k) = r4.unwrap();
        let r5 = match_lit(doc, k, "]}");
        if r5.is_none() {
            return None;
        }
        let e = r5.unwrap();
        if e == n {
            Some(Snapshot { fetched_at: age, points: pts })
        } else {
            None
        }
    }
}

} // verus!
