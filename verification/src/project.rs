//! The match projector: it turns a resolved snapshot into display-ready
//! entries for the query the user typed, and formats each price as
//! fixed two-decimal currency text.
//!
//! Rounding rule: the third fractional digit of the stored decimal text
//! decides, so the price is rounded half away from zero on its exact
//! decimal value — never through a binary float — and repeated calls give
//! the same text.

use vstd::prelude::*;

use crate::codec::dec_rep;
use crate::codec::digit_char;
use crate::codec::digit_val;
use crate::codec::digits_val;
use crate::codec::is_digit;
use crate::codec::lemma_digits_val_mono;
use crate::codec::u64_to_dec;
use crate::model::Snapshot;
use crate::model::points_model;

verus! {

/// One display-ready entry: the symbol it stands for, and its formatted
/// price text, absent when the stored price is not valid decimal text, so
/// that one bad value never breaks the rest of the list.
pub struct MatchEntry {
    pub label: String,
    pub display_text: Option<String>,
}

impl MatchEntry {
    pub open spec fn model(self) -> (Seq<char>, Option<Seq<char>>) {
        (self.label@, self.display_text.deep_view())
    }
}

pub open spec fn entries_model(es: Seq<MatchEntry>) -> Seq<(Seq<char>, Option<Seq<char>>)> {
    es.map_values(|e: MatchEntry| e.model())
}

pub open spec fn starts_with(s: Seq<char>, p: Seq<char>) -> bool {
    p.len() <= s.len() && s.subrange(0, p.len() as int) == p
}

fn str_starts_with(s: &str, p: &str) -> (b: bool)
    ensures
        b == starts_with(s@, p@),
{
    let n = s.unicode_len();
    let m = p.unicode_len();
    if m > n {
        return false;
    }
    let mut k: usize = 0;
    while k < m
        invariant
            k <= m <= n,
            n == s@.len(),
            m == p@.len(),
            forall|t: int| 0 <= t < k ==> s@[t] == p@[t],
        decreases m - k,
    {
        if s.get_char(k) != p.get_char(k) {
            proof {
                assert(s@.subrange(0, m as int)[k as int] == s@[k as int]);
            }
            return false;
        }
        k += 1;
    }
    proof {
        assert(s@.subrange(0, m as int) =~= p@);
    }
    true
}

// ---------------------------------------------------------------------------
// Price formatting
// ---------------------------------------------------------------------------

/// The position of the first dot at or after `i`, or the length when none.
pub open spec fn dot_pos(s: Seq<char>, i: int) -> int
    decreases s.len() - i,
{
    if i < 0 || i >= s.len() {
        s.len() as int
    } else if s[i] == '.' {
        i
    } else {
        dot_pos(s, i + 1)
    }
}

pub open spec fn int_part(s: Seq<char>) -> Seq<char> {
    s.subrange(0, dot_pos(s, 0))
}

pub open spec fn frac_part(s: Seq<char>) -> Seq<char> {
    if dot_pos(s, 0) < s.len() {
        s.subrange(dot_pos(s, 0) + 1, s.len() as int)
    } else {
        Seq::empty()
    }
}

pub open spec fn all_digits(s: Seq<char>) -> bool {
    forall|i: int| 0 <= i < s.len() ==> is_digit(s[i])
}

/// Valid price text: digits, at most one dot, and at least one digit.
pub open spec fn valid_price(s: Seq<char>) -> bool {
    all_digits(int_part(s)) && all_digits(frac_part(s)) && int_part(s).len() + frac_part(s).len()
        > 0
}

pub open spec fn frac_digit(f: Seq<char>, i: int) -> nat {
    if 0 <= i < f.len() {
        digit_val(f[i])
    } else {
        0
    }
}

/// The price in cents, rounded half away from zero on the exact decimal
/// value: the third fractional digit alone decides the rounding step.
pub open spec fn cents_of(s: Seq<char>) -> nat {
    digits_val(int_part(s)) * 100 + frac_digit(frac_part(s), 0) * 10 + frac_digit(frac_part(s), 1)
        + if frac_digit(frac_part(s), 2) >= 5 {
        1nat
    } else {
        0nat
    }
}

/// Cents rendered as currency text: the whole part, a dot, exactly two
/// fractional digits, and the trailing currency marker.
pub open spec fn render_cents(c: nat) -> Seq<char> {
    dec_rep(c / 100) + seq!['.', digit_char((c % 100) / 10), digit_char((c % 100) % 10), '$']
}

/// What formatting a stored price yields: its rounded cents rendered, or
/// nothing when the text is not a valid decimal or its cents overflow.
pub open spec fn format_spec(s: Seq<char>) -> Option<Seq<char>> {
    if valid_price(s) && cents_of(s) <= u64::MAX {
        Some(render_cents(cents_of(s)))
    } else {
        None
    }
}

fn dot_at(s: &str, j: usize) -> (b: bool)
    requires
        j < s@.len(),
    ensures
        b == (s@[j as int] == '.'),
{
    s.get_char(j) == '.'
}

fn digit_at(s: &str, j: usize) -> (b: bool)
    requires
        j < s@.len(),
    ensures
        b == is_digit(s@[j as int]),
{
    let c = s.get_char(j);
    let v = c as u32;
    48 <= v && v <= 57
}

/// Render rounded cents as `WHOLE.DD$`.
fn render_cents_exec(cents: u64) -> (r: String)
    ensures
        r@ == render_cents(cents as nat),
{
    let whole = cents / 100;
    let sub = cents % 100;
    proof {
        assert(sub / 10 < 10) by (nonlinear_arith)
            requires
                sub < 100,
        ;
        assert(sub % 10 < 10);
    }
    let mut out = u64_to_dec(whole);
    out.append(".");
    let tens: u64 = sub / 10;
    let ones: u64 = sub % 10;
    out.append(crate::codec::digit_str(tens));
    out.append(crate::codec::digit_str(ones));
    out.append("$");
    proof {
        reveal_strlit(".");
        reveal_strlit("$");
        assert(out@ =~= render_cents(cents as nat));
    }
    out
}

/// Format a stored price as fixed two-decimal currency text.
#[verifier::rlimit(60)]
pub fn format_price(price: &str) -> (r: Option<String>)
    ensures
        r.deep_view() == format_spec(price@),
{
    let n = price.unicode_len();
    // find the dot
    let mut dot: usize = 0;
    while dot < n && !dot_at(price, dot)
        invariant
            0 <= dot <= n,
            n == price@.len(),
            dot_pos(price@, 0) == dot_pos(price@, dot as int),
        decreases n - dot,
    {
        dot += 1;
    }
    proof {
        assert(dot_pos(price@, 0) == dot as int);
    }
    // every other character must be a digit
    let mut k: usize = 0;
    while k < dot
        invariant
            0 <= k <= dot <= n,
            n == price@.len(),
            dot_pos(price@, 0) == dot as int,
            forall|t: int| 0 <= t < k ==> is_digit(price@[t]),
        decreases dot - k,
    {
        if !digit_at(price, k) {
            proof {
                assert(int_part(price@)[k as int] == price@[k as int]);
            }
            return None;
        }
        k += 1;
    }
    let frac_len: usize = if dot < n {
        n - dot - 1
    } else {
        0
    };
    let mut k2: usize = 0;
    while k2 < frac_len
        invariant
            0 <= k2 <= frac_len,
            n == price@.len(),
            dot <= n,
            dot_pos(price@, 0) == dot as int,
            dot < n ==> frac_len == n - dot - 1,
            dot == n ==> frac_len == 0,
            forall|t: int| 0 <= t < k2 ==> is_digit(#[trigger] price@[dot + 1 + t]),
        decreases frac_len - k2,
    {
        if !digit_at(price, dot + 1 + k2) {
            proof {
                assert(frac_part(price@)[k2 as int] == price@[dot + 1 + k2 as int]);
            }
            return None;
        }
        k2 += 1;
    }
    proof {
        assert(all_digits(int_part(price@))) by {
            assert forall|t: int| 0 <= t < int_part(price@).len() implies is_digit(
                int_part(price@)[t],
            ) by {
                assert(int_part(price@)[t] == price@[t]);
            }
        }
        assert(all_digits(frac_part(price@))) by {
            assert forall|t: int| 0 <= t < frac_part(price@).len() implies is_digit(
                frac_part(price@)[t],
            ) by {
                assert(frac_part(price@)[t] == price@[dot + 1 + t]);
            }
        }
        assert(int_part(price@).len() == dot as int);
        assert(frac_part(price@).len() == frac_len as int);
    }
    if dot == 0 && frac_len == 0 {
        return None;
    }
    // the integer part's value
    let mut acc: u64 = 0;
    let mut i: usize = 0;
    while i < dot
        invariant
            0 <= i <= dot <= n,
            n == price@.len(),
            dot_pos(price@, 0) == dot as int,
            all_digits(int_part(price@)),
            acc == digits_val(price@.subrange(0, i as int)),
        decreases dot - i,
    {
        let c = price.get_char(i);
        proof {
            assert(int_part(price@)[i as int] == price@[i as int]);
            assert(is_digit(price@[i as int]));
        }
        let d = (c as u32 - 48) as u64;
        proof {
            let t = price@.subrange(0, i + 1 as int);
            assert(t.drop_last() =~= price@.subrange(0, i as int));
            assert(t.last() == price@[i as int]);
            assert(digits_val(t) == acc * 10 + d);
        }
        let m1 = acc.checked_mul(10);
        if m1.is_none() {
            proof {
                lemma_digits_val_mono(price@, 0, i + 1 as int, dot as int);
                assert(price@.subrange(0, dot as int) == int_part(price@));
            }
            return None;
        }
        let m2 = m1.unwrap().checked_add(d);
        if m2.is_none() {
            proof {
                lemma_digits_val_mono(price@, 0, i + 1 as int, dot as int);
                assert(price@.subrange(0, dot as int) == int_part(price@));
            }
            return None;
        }
        acc = m2.unwrap();
        i += 1;
    }
    proof {
        assert(price@.subrange(0, dot as int) == int_part(price@));
    }
    // the two kept fractional digits and the rounding step
    let f0: u64 = if frac_len >= 1 {
        let c = price.get_char(dot + 1);
        proof {
            assert(is_digit(price@[dot + 1 as int]));
            assert(frac_part(price@)[0] == price@[dot + 1 as int]);
        }
        (c as u32 - 48) as u64
    } else {
        0
    };
    let f1: u64 = if frac_len >= 2 {
        let c = price.get_char(dot + 2);
        proof {
            assert(is_digit(price@[dot + 2 as int]));
            assert(frac_part(price@)[1] == price@[dot + 2 as int]);
        }
        (c as u32 - 48) as u64
    } else {
        0
    };
    let round: u64 = if frac_len >= 3 {
        let c = price.get_char(dot + 3);
        proof {
            assert(is_digit(price@[dot + 3 as int]));
            assert(frac_part(price@)[2] == price@[dot + 3 as int]);
        }
        if (c as u32 - 48) as u64 >= 5 {
            1
        } else {
            0
        }
    } else {
        0
    };
    proof {
        assert(frac_digit(frac_part(price@), 0) == f0 as nat);
        assert(frac_digit(frac_part(price@), 1) == f1 as nat);
        assert((frac_digit(frac_part(price@), 2) >= 5) == (round == 1));
    }
    let extra: u64 = f0 * 10 + f1 + round;
    let m1 = acc.checked_mul(100);
    if m1.is_none() {
        return None;
    }
    let m2 = m1.unwrap().checked_add(extra);
    if m2.is_none() {
        return None;
    }
    let cents = m2.unwrap();
    proof {
        assert(cents as nat == cents_of(price@));
    }
    Some(render_cents_exec(cents))
}

// ---------------------------------------------------------------------------
// Projection
// ---------------------------------------------------------------------------

/// What one point contributes for the query rest: an entry when its symbol
/// starts with the rest, nothing otherwise.
pub open spec fn entry_for(pt: (Seq<char>, Seq<char>), rest: Seq<char>) -> Option<
    (Seq<char>, Option<Seq<char>>),
> {
    if starts_with(pt.0, rest) {
        Some((pt.0, format_spec(pt.1)))
    } else {
        None
    }
}

/// The entries a point list projects to, in stored order.
pub open spec fn entries_spec(pts: Seq<(Seq<char>, Seq<char>)>, rest: Seq<char>) -> Seq<
    (Seq<char>, Option<Seq<char>>),
> {
    pts.filter_map(|pt: (Seq<char>, Seq<char>)| entry_for(pt, rest))
}

proof fn lemma_entries_take_succ(pts: Seq<(Seq<char>, Seq<char>)>, rest: Seq<char>, i: int)
    requires
        0 <= i < pts.len(),
    ensures
        entries_spec(pts.take(i + 1), rest) == entries_spec(pts.take(i), rest) + match entry_for(
            pts[i],
            rest,
        ) {
            Some(e) => seq![e],
            None => Seq::<(Seq<char>, Option<Seq<char>>)>::empty(),
        },
{
    let s = pts.take(i + 1);
    assert(s.drop_last() =~= pts.take(i));
    assert(s.last() == pts[i]);
    match entry_for(pts[i], rest) {
        Some(e) => {
            assert(entries_spec(s, rest) =~= entries_spec(pts.take(i), rest) + seq![e]);
        },
        None => {
            assert(entries_spec(s, rest) =~= entries_spec(pts.take(i), rest));
        },
    }
}

/// The first `cap` elements, when a cap is set.
pub open spec fn capped<A>(s: Seq<A>, cap: Option<usize>) -> Seq<A> {
    match cap {
        Some(c) => if s.len() > c {
            s.take(c as int)
        } else {
            s
        },
        None => s,
    }
}

/// Project a snapshot for a typed query. A query that does not start with
/// the prefix yields nothing at all; otherwise each point whose symbol
/// starts with the query's rest yields one entry, in stored order,
/// truncated to the first `cap` entries when a cap is set.
pub fn project(query: &str, snap: &Snapshot, prefix: &str, cap: Option<usize>) -> (r: Vec<
    MatchEntry,
>)
    ensures
        !starts_with(query@, prefix@) ==> r@.len() == 0,
        starts_with(query@, prefix@) ==> entries_model(r@) == capped(
            entries_spec(points_model(snap.points@), query@.skip(prefix@.len() as int)),
            cap,
        ),
{
    if !str_starts_with(query, prefix) {
        return Vec::new();
    }
    let m = prefix.unicode_len();
    let rest = query.substring_char(m, query.unicode_len());
    let ghost restv = query@.skip(prefix@.len() as int);
    proof {
        assert(rest@ =~= restv);
    }
    let ghost pm = points_model(snap.points@);
    let mut out: Vec<MatchEntry> = Vec::new();
    let mut i: usize = 0;
    while i < snap.points.len()
        invariant
            i <= snap.points.len(),
            pm == points_model(snap.points@),
            pm.len() == snap.points@.len(),
            rest@ == restv,
            entries_model(out@) == capped(entries_spec(pm.take(i as int), restv), cap),
        decreases snap.points.len() - i,
    {
        let under_cap = match cap {
            Some(c) => out.len() < c,
            None => true,
        };
        let ghost old_out = out@;
        let matched = str_starts_with(snap.points[i].symbol.as_str(), rest);
        if under_cap && matched {
            let display = format_price(snap.points[i].price.as_str());
            let e = MatchEntry { label: snap.points[i].symbol.clone(), display_text: display };
            proof {
                assert(pm[i as int] == snap.points@[i as int].model());
                assert(e.model() == (pm[i as int].0, format_spec(pm[i as int].1)));
            }
            out.push(e);
            proof {
                assert(entries_model(out@) =~= entries_model(old_out) + seq![
                    (pm[i as int].0, format_spec(pm[i as int].1)),
                ]);
            }
        }
        proof {
            lemma_entries_take_succ(pm, restv, i as int);
            let prev = entries_spec(pm.take(i as int), restv);
            let next = entries_spec(pm.take(i + 1 as int), restv);
            assert(pm[i as int] == snap.points@[i as int].model());
            assert(matched == starts_with(pm[i as int].0, restv));
            assert(entries_model(old_out).len() == old_out.len());
            match cap {
                Some(c) => {
                    if old_out.len() < c {
                        assert(prev.len() == old_out.len());
                        if matched {
                            assert(next =~= prev + seq![
                                (pm[i as int].0, format_spec(pm[i as int].1)),
                            ]);
                        } else {
                            assert(next =~= prev);
                        }
                        assert(entries_model(out@) =~= capped(next, cap));
                    } else {
                        assert(prev.len() >= c);
                        assert(capped(prev, cap) =~= prev.take(c as int));
                        assert(next.take(c as int) =~= prev.take(c as int));
                        assert(next.len() >= c);
                        assert(entries_model(out@) =~= capped(next, cap));
                    }
                },
                None => {
                    if matched {
                        assert(next =~= prev + seq![(pm[i as int].0, format_spec(pm[i as int].1))]);
                    } else {
                        assert(next =~= prev);
                    }
                    assert(entries_model(out@) =~= capped(next, cap));
                },
            }
        }
        i += 1;
    }
    proof {
        assert(pm.take(pm.len() as int) =~= pm);
    }
    out
}

} // verus!
