//! The identities one rule publishes for a document's headings, made unique
//! the way the renderer makes a repeat unique, and the union over every rule.

use super::slug::{slug, slug_of};
use super::{
    rule_table, rules, AnchorRule, Attribute, Duplicates, Empty, Heading, HeadingView, RawHtml,
};
use crate::rst::read::{decimal, digit_char, digit_value, digits_value, is_digit, parse_u64, parsed_u64, push_decimal};
use crate::order::{chars_before, chars_before_exec, lemma_chars_before_total, lemma_chars_before_transitive};
use crate::text::chars_of;
use vstd::prelude::*;
use vstd::string::StringExecFns;

verus! {

/// The count after `n`, stopping at the largest `u64`.
pub open spec fn next_count(n: u64) -> u64 {
    if n == u64::MAX {
        n
    } else {
        (n + 1) as u64
    }
}

/// The start of the run of ASCII digits that ends `s[..j]`.
pub open spec fn digit_run(s: Seq<char>, j: int) -> int
    decreases j,
{
    if j > 0 && is_digit(s[j - 1]) {
        digit_run(s, j - 1)
    } else {
        j
    }
}

/// python-markdown's next candidate: `x_1` becomes `x_2` rather than
/// `x_1_1`; anything not ending in `_` and a number that fits takes `_1`.
pub open spec fn bump_of(c: Seq<char>) -> Seq<char> {
    let h = digit_run(c, c.len() as int);
    match parsed_u64(c, h, c.len() as int) {
        Some(count) => if h > 0 && c[h - 1] == '_' {
            c.take(h) + decimal(next_count(count) as nat)
        } else {
            c + "_1"@
        },
        None => c + "_1"@,
    }
}

proof fn lemma_digit_run(s: Seq<char>, j: int)
    requires
        0 <= j <= s.len(),
    ensures
        0 <= digit_run(s, j) <= j,
        forall|k: int| digit_run(s, j) <= k < j ==> is_digit(s[k]),
    decreases j,
{
    if j > 0 && is_digit(s[j - 1]) {
        lemma_digit_run(s, j - 1);
    }
}

/// python-markdown rewrites `x_1` to `x_2` rather than appending again.
pub fn bump(candidate: &str) -> (r: String)
    ensures
        r@ == bump_of(candidate@),
{
    let t = chars_of(candidate);
    let n = t.len();
    let mut h = n;
    while h > 0 && '0' <= t[h - 1] && t[h - 1] <= '9'
        invariant
            h <= n == t@.len(),
            digit_run(t@, n as int) == digit_run(t@, h as int),
        decreases h,
    {
        h = h - 1;
    }
    let parsed = parse_u64(t.as_slice(), h, n);
    let mut out = crate::text::text_of(t.as_slice(), 0, h);
    match parsed {
        Some(count) => if h > 0 && t[h - 1] == '_' {
            let next = if count == u64::MAX {
                count
            } else {
                count + 1
            };
            push_decimal(&mut out, next);
            proof {
                assert(t@.subrange(0, h as int) =~= t@.take(h as int));
            }
            return out;
        },
        None => {},
    }
    let mut whole = crate::text::text_of(t.as_slice(), 0, n);
    whole.push('_');
    whole.push('1');
    proof {
        reveal_strlit("_1");
        assert(t@.subrange(0, n as int) =~= t@);
        assert(whole@ =~= candidate@ + "_1"@);
    }
    whole
}

/// The count after `n`, stopping at the largest `u32`.
pub open spec fn next_number(n: u32) -> u32 {
    if n == u32::MAX {
        n
    } else {
        (n + 1) as u32
    }
}

/// What a repeat is tried as: the base, the separator and a count.
pub open spec fn numbered_candidate(base: Seq<char>, separator: char, count: u32) -> Seq<char> {
    base.push(separator) + decimal(count as nat)
}

/// The identities already published, the next count to try per base, and the
/// next candidate to try per base, as values.
pub struct OccupiedView {
    pub taken: Set<Seq<char>>,
    pub numbered: Map<Seq<char>, u32>,
    pub bumped: Map<Seq<char>, Seq<char>>,
}

/// What a rule has published so far in one document, and where its search for
/// the next free spelling of each repeated base resumes.
pub struct OccupiedIdentities {
    taken: Vec<String>,
    numbered: Vec<(String, u32)>,
    bumped: Vec<(String, String)>,
}

/// The texts of a list of strings, as a set.
pub open spec fn text_set(v: Seq<String>) -> Set<Seq<char>> {
    Set::new(|x: Seq<char>| exists|i: int| 0 <= i < v.len() && #[trigger] v[i]@ == x)
}

/// The counts a list of entries records, the last entry for a base winning.
pub open spec fn count_map(v: Seq<(String, u32)>) -> Map<Seq<char>, u32>
    decreases v.len(),
{
    if v.len() == 0 {
        Map::empty()
    } else {
        count_map(v.drop_last()).insert(v.last().0@, v.last().1)
    }
}

/// The candidates a list of entries records, the last entry for a base
/// winning.
pub open spec fn candidate_map(v: Seq<(String, String)>) -> Map<Seq<char>, Seq<char>>
    decreases v.len(),
{
    if v.len() == 0 {
        Map::empty()
    } else {
        candidate_map(v.drop_last()).insert(v.last().0@, v.last().1@)
    }
}

impl View for OccupiedIdentities {
    type V = OccupiedView;

    closed spec fn view(&self) -> OccupiedView {
        OccupiedView {
            taken: text_set(self.taken@),
            numbered: count_map(self.numbered@),
            bumped: candidate_map(self.bumped@),
        }
    }
}

/// Nothing published yet.
pub open spec fn unoccupied() -> OccupiedView {
    OccupiedView { taken: Set::empty(), numbered: Map::empty(), bumped: Map::empty() }
}

impl OccupiedIdentities {
    /// Nothing published yet.
    pub fn new() -> (o: OccupiedIdentities)
        ensures
            o@ == unoccupied(),
    {
        let o = OccupiedIdentities { taken: Vec::new(), numbered: Vec::new(), bumped: Vec::new() };
        assert(text_set(o.taken@) =~= Set::empty());
        o
    }
}

/// Whether `s` is among the texts of `v`.
fn has_text(v: &Vec<String>, s: &String) -> (b: bool)
    ensures
        b == text_set(v@).contains(s@),
{
    let mut i: usize = 0;
    while i < v.len()
        invariant
            i <= v@.len(),
            forall|k: int| 0 <= k < i ==> v@[k]@ != s@,
        decreases v@.len() - i,
    {
        if v[i] == *s {
            assert(v@[i as int]@ == s@);
            return true;
        }
        i = i + 1;
    }
    false
}

proof fn lemma_count_map_tail(v: Seq<(String, u32)>, j: int, key: Seq<char>)
    requires
        0 <= j <= v.len(),
        forall|m: int| j <= m < v.len() ==> (#[trigger] v[m]).0@ != key,
    ensures
        count_map(v).contains_key(key) == count_map(v.take(j)).contains_key(key),
        count_map(v).contains_key(key) ==> count_map(v)[key] == count_map(v.take(j))[key],
    decreases v.len(),
{
    if v.len() > j {
        assert(v.drop_last().take(j) =~= v.take(j));
        lemma_count_map_tail(v.drop_last(), j, key);
    } else {
        assert(v.take(j) =~= v);
    }
}

proof fn lemma_candidate_map_tail(v: Seq<(String, String)>, j: int, key: Seq<char>)
    requires
        0 <= j <= v.len(),
        forall|m: int| j <= m < v.len() ==> (#[trigger] v[m]).0@ != key,
    ensures
        candidate_map(v).contains_key(key) == candidate_map(v.take(j)).contains_key(key),
        candidate_map(v).contains_key(key) ==> candidate_map(v)[key] == candidate_map(
            v.take(j),
        )[key],
    decreases v.len(),
{
    if v.len() > j {
        assert(v.drop_last().take(j) =~= v.take(j));
        lemma_candidate_map_tail(v.drop_last(), j, key);
    } else {
        assert(v.take(j) =~= v);
    }
}

/// The count recorded for `key`, if any.
fn lookup_count(v: &Vec<(String, u32)>, key: &String) -> (r: Option<u32>)
    ensures
        r is Some <==> count_map(v@).contains_key(key@),
        r matches Some(n) ==> n == count_map(v@)[key@],
{
    let mut j = v.len();
    while j > 0
        invariant
            j <= v@.len(),
            forall|m: int| j <= m < v@.len() ==> (#[trigger] v@[m]).0@ != key@,
        decreases j,
    {
        if v[j - 1].0 == *key {
            proof {
                lemma_count_map_tail(v@, j as int, key@);
                assert(v@.take(j as int).drop_last() =~= v@.take(j - 1));
            }
            return Some(v[j - 1].1);
        }
        j = j - 1;
    }
    proof {
        lemma_count_map_tail(v@, 0, key@);
        assert(v@.take(0) =~= Seq::<(String, u32)>::empty());
    }
    None
}

/// The candidate recorded for `key`, if any.
fn lookup_candidate(v: &Vec<(String, String)>, key: &String) -> (r: Option<String>)
    ensures
        r is Some <==> candidate_map(v@).contains_key(key@),
        r matches Some(c) ==> c@ == candidate_map(v@)[key@],
{
    let mut j = v.len();
    while j > 0
        invariant
            j <= v@.len(),
            forall|m: int| j <= m < v@.len() ==> (#[trigger] v@[m]).0@ != key@,
        decreases j,
    {
        if v[j - 1].0 == *key {
            proof {
                lemma_candidate_map_tail(v@, j as int, key@);
                assert(v@.take(j as int).drop_last() =~= v@.take(j - 1));
            }
            return Some(v[j - 1].1.clone());
        }
        j = j - 1;
    }
    proof {
        lemma_candidate_map_tail(v@, 0, key@);
        assert(v@.take(0) =~= Seq::<(String, String)>::empty());
    }
    None
}

/// Where a counted search for a free spelling of `base` stops within `fuel`
/// tries from `count`: the first count whose candidate is free, or the count
/// reached when the tries run out.
pub open spec fn count_walk(taken: Set<Seq<char>>, base: Seq<char>, separator: char, count: u32, fuel: nat) -> u32
    decreases fuel,
{
    if fuel == 0 || !taken.contains(numbered_candidate(base, separator, count)) {
        count
    } else {
        count_walk(taken, base, separator, next_number(count), (fuel - 1) as nat)
    }
}

/// Whether some number of tries from `count` reaches a free candidate. The
/// count stops at the largest `u32`, so where every candidate from `count` on
/// is taken the renderer's search never ends.
pub open spec fn count_ends(taken: Set<Seq<char>>, base: Seq<char>, separator: char, count: u32) -> bool {
    exists|fuel: nat| !taken.contains(
        numbered_candidate(base, separator, #[trigger] count_walk(taken, base, separator, count, fuel)),
    )
}

/// A number of tries enough to reach a free candidate.
pub open spec fn count_fuel(taken: Set<Seq<char>>, base: Seq<char>, separator: char, count: u32) -> nat {
    choose|fuel: nat| !taken.contains(
        numbered_candidate(base, separator, #[trigger] count_walk(taken, base, separator, count, fuel)),
    )
}

/// The first count from `count` on whose candidate is free.
pub open spec fn count_search(taken: Set<Seq<char>>, base: Seq<char>, separator: char, count: u32) -> u32 {
    count_walk(taken, base, separator, count, count_fuel(taken, base, separator, count))
}

/// Where a numbered search for `base` starts: the count it stopped after last
/// time, or `first`.
pub open spec fn count_start(o: OccupiedView, base: Seq<char>, first: u32) -> u32 {
    if o.numbered.contains_key(base) {
        o.numbered[base]
    } else {
        first
    }
}

/// Whether a numbered search for `base` ends.
pub open spec fn numbered_ends(o: OccupiedView, base: Seq<char>, separator: char, first: u32) -> bool {
    o.taken.contains(base) ==> count_ends(o.taken, base, separator, count_start(o, base, first))
}

/// A free base is published as it is; a taken one as the first free
/// `base`, separator, count, counting on from where the last search for the
/// same base stopped.
pub open spec fn numbered_step(o: OccupiedView, base: Seq<char>, separator: char, first: u32) -> (Seq<char>, OccupiedView) {
    if !o.taken.contains(base) {
        (base, o)
    } else {
        let k = count_search(o.taken, base, separator, count_start(o, base, first));
        (
            numbered_candidate(base, separator, k),
            OccupiedView { numbered: o.numbered.insert(base, next_number(k)), ..o },
        )
    }
}

/// Whether a bumped candidate can be published: free and not empty.
pub open spec fn settles(taken: Set<Seq<char>>, c: Seq<char>) -> bool {
    !taken.contains(c) && c.len() > 0
}

/// Where bumping `c` stops within `fuel` bumps.
pub open spec fn bump_walk(taken: Set<Seq<char>>, c: Seq<char>, fuel: nat) -> Seq<char>
    decreases fuel,
{
    if fuel == 0 || settles(taken, c) {
        c
    } else {
        bump_walk(taken, bump_of(c), (fuel - 1) as nat)
    }
}

/// Whether bumping `c` reaches a candidate that can be published. A count
/// that no longer grows stops the bumps, so where it is taken the renderer's
/// search never ends.
pub open spec fn bump_ends(taken: Set<Seq<char>>, c: Seq<char>) -> bool {
    exists|fuel: nat| settles(taken, #[trigger] bump_walk(taken, c, fuel))
}

/// A number of bumps enough to reach a candidate that can be published.
pub open spec fn bump_fuel(taken: Set<Seq<char>>, c: Seq<char>) -> nat {
    choose|fuel: nat| settles(taken, #[trigger] bump_walk(taken, c, fuel))
}

/// The first candidate bumping `c` reaches that can be published.
pub open spec fn bump_search(taken: Set<Seq<char>>, c: Seq<char>) -> Seq<char> {
    bump_walk(taken, c, bump_fuel(taken, c))
}

/// Where a bumped search for `base` starts: the candidate it would have tried
/// next last time, or the base bumped once.
pub open spec fn bump_start(o: OccupiedView, base: Seq<char>) -> Seq<char> {
    if o.bumped.contains_key(base) {
        o.bumped[base]
    } else {
        bump_of(base)
    }
}

/// Whether a bumped search for `base` ends.
pub open spec fn bumped_ends(o: OccupiedView, base: Seq<char>) -> bool {
    !settles(o.taken, base) ==> bump_ends(o.taken, bump_start(o, base))
}

/// A free, non-empty base is published as it is; otherwise the first
/// publishable candidate bumping goes through, resuming where the last search
/// for the same base stopped.
pub open spec fn bumped_step(o: OccupiedView, base: Seq<char>) -> (Seq<char>, OccupiedView) {
    if settles(o.taken, base) {
        (base, o)
    } else {
        let c = bump_search(o.taken, bump_start(o, base));
        (c, OccupiedView { bumped: o.bumped.insert(base, bump_of(c)), ..o })
    }
}

/// `base`, the separator and `count`, as one string.
fn numbered_text(base: &String, separator: char, count: u32) -> (r: String)
    ensures
        r@ == numbered_candidate(base@, separator, count),
{
    let mut r = base.clone();
    r.push(separator);
    push_decimal(&mut r, count as u64);
    r
}

/// The spelling a numbered rule publishes for `base`.
pub fn numbered_identity(base: String, separator: char, first: u32, occupied: &mut OccupiedIdentities) -> (r: String)
    requires
        numbered_ends(old(occupied)@, base@, separator, first),
    ensures
        (r@, final(occupied)@) == numbered_step(old(occupied)@, base@, separator, first),
{
    if !has_text(&occupied.taken, &base) {
        return base;
    }
    let ghost taken = occupied@.taken;
    let mut count = match lookup_count(&occupied.numbered, &base) {
        Some(c) => c,
        None => first,
    };
    let ghost start = count;
    let ghost fuel = count_fuel(taken, base@, separator, start);
    let ghost mut used: nat = 0;
    loop
        invariant
            occupied@ == old(occupied)@,
            taken == old(occupied)@.taken,
            taken.contains(base@),
            start == count_start(old(occupied)@, base@, first),
            fuel == count_fuel(taken, base@, separator, start),
            count_ends(taken, base@, separator, start),
            used <= fuel,
            count_walk(taken, base@, separator, start, fuel) == count_walk(
                taken,
                base@,
                separator,
                count,
                (fuel - used) as nat,
            ),
        decreases fuel - used,
    {
        let candidate = numbered_text(&base, separator, count);
        let next = if count == u32::MAX {
            count
        } else {
            count + 1
        };
        if !has_text(&occupied.taken, &candidate) {
            let ghost before = occupied.numbered@;
            occupied.numbered.push((base, next));
            proof {
                assert(occupied.numbered@.drop_last() =~= before);
            }
            return candidate;
        }
        proof {
            if used == fuel {
                assert(!taken.contains(numbered_candidate(base@, separator, count_walk(taken, base@, separator, start, fuel))));
            }
            used = used + 1;
        }
        count = next;
    }
}

proof fn lemma_bump_walk_settled(taken: Set<Seq<char>>, c: Seq<char>, f: nat, g: nat)
    requires
        settles(taken, bump_walk(taken, c, f)),
        settles(taken, bump_walk(taken, c, g)),
    ensures
        bump_walk(taken, c, f) == bump_walk(taken, c, g),
    decreases f,
{
    if f > 0 && g > 0 && !settles(taken, c) {
        lemma_bump_walk_settled(taken, bump_of(c), (f - 1) as nat, (g - 1) as nat);
    }
}

/// The spelling the underscore rule publishes for `base`.
pub fn bumped_identity(base: String, occupied: &mut OccupiedIdentities) -> (r: String)
    requires
        bumped_ends(old(occupied)@, base@),
    ensures
        (r@, final(occupied)@) == bumped_step(old(occupied)@, base@),
{
    if !base.as_str().is_empty() && !has_text(&occupied.taken, &base) {
        return base;
    }
    let ghost taken = occupied@.taken;
    let mut candidate = match lookup_candidate(&occupied.bumped, &base) {
        Some(c) => c,
        None => bump(base.as_str()),
    };
    let ghost start = candidate@;
    let ghost fuel = bump_fuel(taken, start);
    let ghost mut used: nat = 0;
    while has_text(&occupied.taken, &candidate) || candidate.as_str().is_empty()
        invariant
            occupied@ == old(occupied)@,
            taken == old(occupied)@.taken,
            !settles(taken, base@),
            start == bump_start(old(occupied)@, base@),
            fuel == bump_fuel(taken, start),
            bump_ends(taken, start),
            settles(taken, bump_walk(taken, start, fuel)),
            used <= fuel,
            bump_walk(taken, start, fuel) == bump_walk(taken, candidate@, (fuel - used) as nat),
        decreases fuel - used,
    {
        proof {
            if used == fuel {
                assert(settles(taken, candidate@));
            }
            used = used + 1;
        }
        candidate = bump(candidate.as_str());
    }
    proof {
        assert(bump_walk(taken, candidate@, (fuel - used) as nat) == candidate@);
    }
    let next = bump(candidate.as_str());
    let ghost before = occupied.bumped@;
    occupied.bumped.push((base, next));
    proof {
        assert(occupied.bumped@.drop_last() =~= before);
    }
    candidate
}

proof fn lemma_digit_char(d: nat)
    requires
        d < 10,
    ensures
        is_digit(digit_char(d)),
        digit_value(digit_char(d)) == d,
{
}

/// The digits `decimal(m)` writes spell `m`.
proof fn lemma_decimal_value(t: Seq<char>, a: int, b: int, m: nat)
    requires
        0 <= a <= b <= t.len(),
        t.subrange(a, b) == decimal(m),
    ensures
        a < b,
        forall|k: int| a <= k < b ==> #[trigger] is_digit(t[k]),
        digits_value(t, a, b) == m,
    decreases m,
{
    if m < 10 {
        assert(t.subrange(a, b).len() == 1);
        assert(t[a] == t.subrange(a, b)[0]);
        lemma_digit_char(m);
        assert(digits_value(t, a, a) == 0);
    } else {
        let d = decimal(m / 10);
        assert(t.subrange(a, b) == d.push(digit_char(m % 10)));
        assert(t.subrange(a, b - 1) =~= d);
        lemma_decimal_value(t, a, b - 1, m / 10);
        assert(t[b - 1] == t.subrange(a, b)[b - 1 - a]);
        lemma_digit_char(m % 10);
        assert(digits_value(t, a, b) == digits_value(t, a, b - 1) * 10 + digit_value(t[b - 1]));
    }
}

proof fn lemma_digit_run_over(s: Seq<char>, a: int, j: int)
    requires
        0 <= a <= j <= s.len(),
        forall|k: int| a <= k < j ==> #[trigger] is_digit(s[k]),
    ensures
        digit_run(s, j) == digit_run(s, a),
    decreases j - a,
{
    if j > a {
        lemma_digit_run_over(s, a, j - 1);
    }
}

/// A stem ending in `_` followed by a count bumps to the same stem followed by
/// the next count.
proof fn lemma_bump_formed(p: Seq<char>, m: u64)
    requires
        p.len() > 0,
        p.last() == '_',
    ensures
        bump_of(p + decimal(m as nat)) == p + decimal(next_count(m) as nat),
{
    let c = p + decimal(m as nat);
    let n = c.len() as int;
    let h = p.len() as int;
    assert(c.subrange(h, n) =~= decimal(m as nat));
    lemma_decimal_value(c, h, n, m as nat);
    lemma_digit_run_over(c, h, n);
    assert(c[h - 1] == '_');
    assert(digit_run(c, h) == h);
    assert(is_digit(c[h]));
    assert(parsed_u64(c, h, n) == Some(m));
    assert(c.take(h) =~= p);
}

/// Whatever is bumped comes out as a stem ending in `_` followed by a count.
proof fn lemma_bump_forms(c: Seq<char>) -> (r: (Seq<char>, u64))
    ensures
        r.0.len() > 0,
        r.0.last() == '_',
        bump_of(c) == r.0 + decimal(r.1 as nat),
{
    let h = digit_run(c, c.len() as int);
    lemma_digit_run(c, c.len() as int);
    reveal_strlit("_1");
    assert(decimal(1) == seq!['1']);
    assert(c + "_1"@ =~= c.push('_') + decimal(1));
    match parsed_u64(c, h, c.len() as int) {
        Some(count) => if h > 0 && c[h - 1] == '_' {
            assert(c.take(h).last() == '_');
            (c.take(h), next_count(count))
        } else {
            (c.push('_'), 1)
        },
        None => (c.push('_'), 1),
    }
}

/// Walking a chain of unsettled candidates, each the bump of the one before,
/// reaches its `j`-th candidate after `j` bumps.
proof fn lemma_chain_walk(taken: Set<Seq<char>>, chain: Seq<Seq<char>>, i: int, j: int)
    requires
        0 <= i <= j < chain.len(),
        forall|k: int| 0 <= k < chain.len() - 1 ==> !settles(taken, #[trigger] chain[k]) && chain[k + 1]
            == bump_of(chain[k]),
    ensures
        bump_walk(taken, chain[i], (j - i) as nat) == chain[j],
    decreases j - i,
{
    if i < j {
        assert(!settles(taken, chain[i]));
        lemma_chain_walk(taken, chain, i + 1, j);
    }
}

/// A chain of unsettled candidates whose last one bumps to itself never
/// settles, however far it is walked.
proof fn lemma_chain_stuck(taken: Set<Seq<char>>, chain: Seq<Seq<char>>, i: int, fuel: nat)
    requires
        0 <= i < chain.len(),
        forall|k: int| 0 <= k < chain.len() - 1 ==> !settles(taken, #[trigger] chain[k]) && chain[k + 1]
            == bump_of(chain[k]),
        !settles(taken, chain.last()),
        bump_of(chain.last()) == chain.last(),
    ensures
        !settles(taken, bump_walk(taken, chain[i], fuel)),
    decreases fuel,
{
    assert(!settles(taken, chain[i]));
    if fuel > 0 {
        if i < chain.len() - 1 {
            lemma_chain_stuck(taken, chain, i + 1, (fuel - 1) as nat);
        } else {
            lemma_chain_stuck(taken, chain, i, (fuel - 1) as nat);
        }
    }
}

/// Whether a bumped search for `base` ends: bumping reaches a free, non-empty
/// candidate before it reaches one that bumps to itself.
fn bumped_search_ends(occupied: &OccupiedIdentities, base: &String) -> (b: bool)
    ensures
        b == bumped_ends(occupied@, base@),
{
    if !base.as_str().is_empty() && !has_text(&occupied.taken, base) {
        return true;
    }
    let ghost taken = occupied@.taken;
    let mut candidate = match lookup_candidate(&occupied.bumped, base) {
        Some(c) => c,
        None => bump(base.as_str()),
    };
    let ghost start = candidate@;
    let ghost mut chain: Seq<Seq<char>> = seq![start];
    let ghost mut formed: bool = false;
    let ghost mut stem: Seq<char> = Seq::empty();
    let ghost mut k: u64 = 0;
    loop
        invariant
            taken == occupied@.taken,
            !settles(taken, base@),
            start == bump_start(occupied@, base@),
            chain.len() >= 1,
            chain[0] == start,
            chain.last() == candidate@,
            forall|j: int| 0 <= j < chain.len() - 1 ==> !settles(taken, #[trigger] chain[j]) && chain[j
                + 1] == bump_of(chain[j]),
            formed ==> stem.len() > 0 && stem.last() == '_' && candidate@ == stem + decimal(k as nat),
        decreases (if formed {
            u64::MAX - k
        } else {
            u64::MAX + 1
        }),
    {
        if !candidate.as_str().is_empty() && !has_text(&occupied.taken, &candidate) {
            proof {
                lemma_chain_walk(taken, chain, 0, chain.len() - 1);
                assert(settles(taken, bump_walk(taken, start, (chain.len() - 1) as nat)));
            }
            return true;
        }
        let next = bump(candidate.as_str());
        if next == candidate {
            proof {
                assert forall|fuel: nat| !settles(taken, #[trigger] bump_walk(taken, start, fuel)) by {
                    lemma_chain_stuck(taken, chain, 0, fuel);
                }
            }
            return false;
        }
        proof {
            if formed {
                lemma_bump_formed(stem, k);
                k = next_count(k);
            } else {
                let (p, m) = lemma_bump_forms(candidate@);
                stem = p;
                k = m;
                formed = true;
            }
            let ghost old_chain = chain;
            chain = chain.push(next@);
            assert forall|j: int| 0 <= j < chain.len() - 1 implies !settles(taken, #[trigger] chain[j])
                && chain[j + 1] == bump_of(chain[j]) by {
                if j < old_chain.len() - 1 {
                    assert(chain[j] == old_chain[j] && chain[j + 1] == old_chain[j + 1]);
                }
            }
        }
        candidate = next;
    }
}

/// A counted search that meets only taken candidates from `c` up to `end`
/// arrives at `end`.
proof fn lemma_count_walk_to(taken: Set<Seq<char>>, base: Seq<char>, separator: char, c: u32, end: u32)
    requires
        c <= end,
        forall|k: u32| c <= k < end ==> #[trigger] taken.contains(numbered_candidate(base, separator, k)),
    ensures
        count_walk(taken, base, separator, c, (end - c) as nat) == end,
    decreases end - c,
{
    if c < end {
        assert(taken.contains(numbered_candidate(base, separator, c)));
        lemma_count_walk_to(taken, base, separator, (c + 1) as u32, end);
    }
}

/// Where every candidate from `c` to the largest count is taken, a counted
/// search from `c` never meets a free one.
proof fn lemma_count_walk_stuck(taken: Set<Seq<char>>, base: Seq<char>, separator: char, c: u32, fuel: nat)
    requires
        forall|k: u32| c <= k ==> #[trigger] taken.contains(numbered_candidate(base, separator, k)),
    ensures
        taken.contains(numbered_candidate(base, separator, count_walk(taken, base, separator, c, fuel))),
    decreases fuel,
{
    assert(taken.contains(numbered_candidate(base, separator, c)));
    if fuel > 0 {
        lemma_count_walk_stuck(taken, base, separator, next_number(c), (fuel - 1) as nat);
    }
}

/// Whether a numbered search for `base` ends: some count from where it
/// starts, before the count stops growing, names a free candidate.
fn numbered_search_ends(occupied: &OccupiedIdentities, base: &String, separator: char, first: u32) -> (b: bool)
    ensures
        b == numbered_ends(occupied@, base@, separator, first),
{
    if !has_text(&occupied.taken, base) {
        return true;
    }
    let ghost taken = occupied@.taken;
    let mut count = match lookup_count(&occupied.numbered, base) {
        Some(c) => c,
        None => first,
    };
    let ghost start = count;
    loop
        invariant
            taken == occupied@.taken,
            taken.contains(base@),
            start == count_start(occupied@, base@, first),
            start <= count,
            forall|k: u32| start <= k < count ==> #[trigger] taken.contains(numbered_candidate(base@, separator, k)),
        decreases u32::MAX - count,
    {
        let candidate = numbered_text(base, separator, count);
        if !has_text(&occupied.taken, &candidate) {
            proof {
                lemma_count_walk_to(taken, base@, separator, start, count);
                assert(!taken.contains(numbered_candidate(base@, separator, count_walk(taken, base@, separator, start, (count - start) as nat))));
            }
            return true;
        }
        if count == u32::MAX {
            proof {
                assert(taken.contains(numbered_candidate(base@, separator, count)));
                assert forall|k: u32| start <= k implies #[trigger] taken.contains(numbered_candidate(base@, separator, k)) by {
                    if k < count {
                    } else {
                        assert(k == count);
                    }
                }
                assert forall|fuel: nat| taken.contains(
                    numbered_candidate(base@, separator, #[trigger] count_walk(taken, base@, separator, start, fuel)),
                ) by {
                    lemma_count_walk_stuck(taken, base@, separator, start, fuel);
                }
            }
            return false;
        }
        count = count + 1;
    }
}

/// Whether making `base` unique ends under a rule.
fn fill_search_ends(rule: &AnchorRule, base: &String, occupied: &OccupiedIdentities) -> (b: bool)
    ensures
        b == fill_ends(*rule, base@, occupied@),
{
    let filled = if base.as_str().is_empty() {
        match rule.empty {
            Empty::Drop => {
                return true;
            },
            Empty::Keep => base.clone(),
            Empty::Fill(text) => text.to_owned(),
        }
    } else {
        base.clone()
    };
    match rule.duplicates {
        Duplicates::Collide => true,
        Duplicates::Dash => numbered_search_ends(occupied, &filled, '-', 1),
        Duplicates::UnderscoreFromTwo => numbered_search_ends(occupied, &filled, '_', 2),
        Duplicates::Underscore => bumped_search_ends(occupied, &filled),
    }
}

/// The base a rule makes unique, once an empty one has been dropped, kept or
/// filled; `None` when the rule drops it.
pub open spec fn filled_base(rule: AnchorRule, base: Seq<char>) -> Option<Seq<char>> {
    if base.len() == 0 {
        match rule.empty {
            Empty::Drop => None,
            Empty::Keep => Some(base),
            Empty::Fill(text) => Some(text@),
        }
    } else {
        Some(base)
    }
}

/// Whether making `base` unique ends under a rule.
pub open spec fn fill_ends(rule: AnchorRule, base: Seq<char>, o: OccupiedView) -> bool {
    match filled_base(rule, base) {
        None => true,
        Some(b) => match rule.duplicates {
            Duplicates::Collide => true,
            Duplicates::Dash => numbered_ends(o, b, '-', 1),
            Duplicates::UnderscoreFromTwo => numbered_ends(o, b, '_', 2),
            Duplicates::Underscore => bumped_ends(o, b),
        },
    }
}

/// The identity a rule publishes for one base, if any, and what is occupied
/// after it: the base filled where it came out empty, made unique as the rule
/// makes a repeat unique, and taken.
pub open spec fn fill_step(rule: AnchorRule, base: Seq<char>, o: OccupiedView) -> (Option<Seq<char>>, OccupiedView) {
    match filled_base(rule, base) {
        None => (None, o),
        Some(b) => {
            let step = match rule.duplicates {
                Duplicates::Collide => (b, o),
                Duplicates::Dash => numbered_step(o, b, '-', 1),
                Duplicates::UnderscoreFromTwo => numbered_step(o, b, '_', 2),
                Duplicates::Underscore => bumped_step(o, b),
            };
            (Some(step.0), OccupiedView { taken: step.1.taken.insert(step.0), ..step.1 })
        },
    }
}

/// The identity a rule publishes for one base, if any.
pub fn fill(rule: &AnchorRule, base: String, occupied: &mut OccupiedIdentities) -> (r: Option<String>)
    requires
        fill_ends(*rule, base@, old(occupied)@),
    ensures
        (match r {
            Some(s) => Some(s@),
            None => None,
        }, final(occupied)@) == fill_step(*rule, base@, old(occupied)@),
{
    let base = if base.as_str().is_empty() {
        match rule.empty {
            Empty::Drop => {
                return None;
            },
            Empty::Keep => base,
            Empty::Fill(text) => text.to_owned(),
        }
    } else {
        base
    };
    let unique = match rule.duplicates {
        Duplicates::Collide => base,
        Duplicates::Dash => numbered_identity(base, '-', 1, occupied),
        Duplicates::UnderscoreFromTwo => numbered_identity(base, '_', 2, occupied),
        Duplicates::Underscore => bumped_identity(base, occupied),
    };
    let ghost before = occupied.taken@;
    occupied.taken.push(unique.clone());
    proof {
        assert(text_set(occupied.taken@) =~= text_set(before).insert(unique@)) by {
            assert forall|x: Seq<char>| text_set(occupied.taken@).contains(x) implies text_set(
                before,
            ).insert(unique@).contains(x) by {
                let i = choose|i: int| 0 <= i < occupied.taken@.len() && occupied.taken@[i]@ == x;
                if i < before.len() {
                    assert(before[i] == occupied.taken@[i]);
                }
            }
            assert forall|x: Seq<char>| text_set(before).insert(unique@).contains(x) implies text_set(
                occupied.taken@,
            ).contains(x) by {
                if x == unique@ {
                    assert(occupied.taken@[before.len() as int]@ == x);
                } else {
                    let i = choose|i: int| 0 <= i < before.len() && before[i]@ == x;
                    assert(occupied.taken@[i] == before[i]);
                }
            }
        }
    }
    Some(unique)
}

/// The text a rule slugs for one heading: its text, followed by its
/// attribute block's text where the rule reads the block as text.
pub open spec fn heading_base(rule: AnchorRule, h: HeadingView) -> Option<Seq<char>> {
    if h.raw_html && rule.raw_html == RawHtml::Ignored {
        None
    } else {
        match h.attribute {
            Some(a) => if rule.attribute == Attribute::Honored {
                Some(a.0)
            } else {
                Some(slug_of(rule, h.text + a.1))
            },
            None => Some(slug_of(rule, h.text)),
        }
    }
}

/// The identities a rule publishes for a sequence of headings, in order, and
/// what is occupied after them.
pub open spec fn run(rule: AnchorRule, hs: Seq<HeadingView>) -> (Seq<Seq<char>>, OccupiedView)
    decreases hs.len(),
{
    if hs.len() == 0 {
        (seq![], unoccupied())
    } else {
        let before = run(rule, hs.drop_last());
        match heading_base(rule, hs.last()) {
            None => before,
            Some(b) => {
                let step = fill_step(rule, b, before.1);
                match step.0 {
                    Some(u) => (before.0.push(u), step.1),
                    None => (before.0, step.1),
                }
            },
        }
    }
}

/// Whether the renderer's search for a free spelling ends at every heading.
pub open spec fn run_ends(rule: AnchorRule, hs: Seq<HeadingView>) -> bool
    decreases hs.len(),
{
    hs.len() == 0 || (run_ends(rule, hs.drop_last()) && match heading_base(rule, hs.last()) {
        None => true,
        Some(b) => fill_ends(rule, b, run(rule, hs.drop_last()).1),
    })
}

proof fn lemma_run_ends_prefix(rule: AnchorRule, hs: Seq<HeadingView>, j: int)
    requires
        0 <= j <= hs.len(),
        run_ends(rule, hs),
    ensures
        run_ends(rule, hs.take(j)),
    decreases hs.len(),
{
    if j < hs.len() {
        assert(hs.drop_last().take(j) =~= hs.take(j));
        lemma_run_ends_prefix(rule, hs.drop_last(), j);
    } else {
        assert(hs.take(j) =~= hs);
    }
}

/// The values of a list of headings.
pub open spec fn heading_views(hs: Seq<Heading>) -> Seq<HeadingView> {
    hs.map_values(|h: Heading| h@)
}

/// The texts of a list of strings.
pub open spec fn texts(v: Seq<String>) -> Seq<Seq<char>> {
    v.map_values(|s: String| s@)
}

/// `a` followed by `b`, as one string.
fn concat_text(a: &String, b: &String) -> (r: String)
    ensures
        r@ == a@ + b@,
{
    let mut r = a.clone();
    r.append(b.as_str());
    r
}

/// The identities one rule publishes, in document order, with the headings it
/// publishes nothing for left out; `None` exactly where the renderer's search
/// for a free spelling would never end.
pub fn identities_checked(rule: &AnchorRule, headings: &[Heading]) -> (r: Option<Vec<String>>)
    ensures
        r is Some <==> run_ends(*rule, heading_views(headings@)),
        r matches Some(v) ==> texts(v@) == run(*rule, heading_views(headings@)).0,
{
    let ghost hs = heading_views(headings@);
    let mut occupied = OccupiedIdentities::new();
    let mut out: Vec<String> = Vec::new();
    let mut i: usize = 0;
    proof {
        assert(hs.take(0) =~= Seq::<HeadingView>::empty());
    }
    while i < headings.len()
        invariant
            i <= headings@.len(),
            hs == heading_views(headings@),
            run_ends(*rule, hs.take(i as int)),
            texts(out@) == run(*rule, hs.take(i as int)).0,
            occupied@ == run(*rule, hs.take(i as int)).1,
        decreases headings@.len() - i,
    {
        let heading = &headings[i];
        proof {
            assert(hs.take(i + 1).drop_last() =~= hs.take(i as int));
            assert(hs.take(i + 1).last() == heading@);
        }
        if heading.source == super::HeadingSource::RawHtml && rule.raw_html == RawHtml::Ignored {
            i = i + 1;
            continue;
        }
        let base = match &heading.attribute {
            Some(attribute) => if rule.attribute == Attribute::Honored {
                attribute.id.clone()
            } else {
                let text = concat_text(&heading.text, &attribute.suffix);
                slug(rule, text.as_str())
            },
            None => slug(rule, heading.text.as_str()),
        };
        if !fill_search_ends(rule, &base, &occupied) {
            proof {
                if run_ends(*rule, hs) {
                    lemma_run_ends_prefix(*rule, hs, i + 1);
                }
            }
            return None;
        }
        let ghost before = out@;
        match fill(rule, base, &mut occupied) {
            Some(unique) => {
                out.push(unique);
                proof {
                    assert(texts(out@) =~= texts(before).push(out@.last()@));
                }
            },
            None => {},
        }
        i = i + 1;
    }
    proof {
        assert(hs.take(headings@.len() as int) =~= hs);
    }
    Some(out)
}

/// The identities one rule publishes, in document order, with the headings it
/// publishes nothing for left out.
pub fn identities(rule: &AnchorRule, headings: &[Heading]) -> (r: Vec<String>)
    requires
        run_ends(*rule, heading_views(headings@)),
    ensures
        texts(r@) == run(*rule, heading_views(headings@)).0,
{
    match identities_checked(rule, headings) {
        Some(v) => v,
        None => Vec::new(),
    }
}

/// Under every rule that makes a repeat unique, no identity is published
/// twice in one document, and every identity published stays taken.
pub proof fn lemma_identities_unique(rule: AnchorRule, hs: Seq<HeadingView>)
    requires
        run_ends(rule, hs),
        rule.duplicates != Duplicates::Collide,
    ensures
        run(rule, hs).0.no_duplicates(),
        forall|k: int| 0 <= k < run(rule, hs).0.len() ==> run(rule, hs).1.taken.contains(
            #[trigger] run(rule, hs).0[k],
        ),
    decreases hs.len(),
{
    if hs.len() > 0 {
        lemma_identities_unique(rule, hs.drop_last());
        let before = run(rule, hs.drop_last());
        match heading_base(rule, hs.last()) {
            None => {},
            Some(b) => {
                match filled_base(rule, b) {
                    None => {},
                    Some(fb) => {
                        let o = before.1;
                        let step = match rule.duplicates {
                            Duplicates::Collide => (fb, o),
                            Duplicates::Dash => numbered_step(o, fb, '-', 1),
                            Duplicates::UnderscoreFromTwo => numbered_step(o, fb, '_', 2),
                            Duplicates::Underscore => bumped_step(o, fb),
                        };
                        assert(step.1.taken == o.taken);
                        assert(!o.taken.contains(step.0)) by {
                            match rule.duplicates {
                                Duplicates::Dash => {
                                    if o.taken.contains(fb) {
                                        let start = count_start(o, fb, 1);
                                        assert(count_ends(o.taken, fb, '-', start));
                                    }
                                },
                                Duplicates::UnderscoreFromTwo => {
                                    if o.taken.contains(fb) {
                                        let start = count_start(o, fb, 2);
                                        assert(count_ends(o.taken, fb, '_', start));
                                    }
                                },
                                Duplicates::Underscore => {
                                    if !settles(o.taken, fb) {
                                        assert(bump_ends(o.taken, bump_start(o, fb)));
                                    }
                                },
                                Duplicates::Collide => {},
                            }
                        }
                        let out = before.0.push(step.0);
                        assert(run(rule, hs).0 == out);
                        assert forall|i: int, j: int| 0 <= i < j < out.len() implies out[i] != out[j] by {
                            if j == out.len() - 1 {
                                assert(o.taken.contains(before.0[i]));
                            }
                        }
                    },
                }
            },
        }
    }
}

/// The identities the first `n` rules of the table publish, as one set.
pub open spec fn published(hs: Seq<HeadingView>, n: int) -> Set<Seq<char>>
    decreases n,
{
    if n <= 0 {
        Set::empty()
    } else {
        published(hs, n - 1).union(run(rule_table()[n - 1], hs).0.to_set())
    }
}

/// The anchor set is the union over the rules: an identity any rule of the
/// table publishes is in it, so adding a rule can only grow the set.
pub proof fn lemma_rule_identity_is_published(hs: Seq<HeadingView>, i: int, n: int, id: Seq<char>)
    requires
        0 <= i < n,
        run(rule_table()[i], hs).0.contains(id),
    ensures
        published(hs, n).contains(id),
    decreases n,
{
    if i < n - 1 {
        lemma_rule_identity_is_published(hs, i, n - 1, id);
    }
}

/// Adds each text of `items` to `out` that is not there yet.
fn add_all(out: &mut Vec<String>, items: &Vec<String>)
    requires
        texts(old(out)@).no_duplicates(),
    ensures
        texts(final(out)@).no_duplicates(),
        text_set(final(out)@) == text_set(old(out)@).union(texts(items@).to_set()),
{
    let mut i: usize = 0;
    while i < items.len()
        invariant
            i <= items@.len(),
            texts(out@).no_duplicates(),
            text_set(out@) == text_set(old(out)@).union(texts(items@).take(i as int).to_set()),
        decreases items@.len() - i,
    {
        let item = &items[i];
        let ghost before = out@;
        proof {
            assert(texts(items@).take(i + 1) =~= texts(items@).take(i as int).push(item@));
            vstd::seq_lib::lemma_seq_contains_after_push(texts(items@).take(i as int), item@, item@);
        }
        if !has_text(out, item) {
            out.push(item.clone());
            proof {
                assert(texts(out@) =~= texts(before).push(item@));
                assert forall|k: int| 0 <= k < texts(before).len() implies texts(before)[k] != item@ by {
                    assert(before[k]@ == texts(before)[k]);
                }
                assert(text_set(out@) =~= text_set(before).insert(item@)) by {
                    assert forall|x: Seq<char>| text_set(out@).contains(x) implies text_set(
                        before,
                    ).insert(item@).contains(x) by {
                        let k = choose|k: int| 0 <= k < out@.len() && out@[k]@ == x;
                        if k < before.len() {
                            assert(before[k] == out@[k]);
                        }
                    }
                    assert forall|x: Seq<char>| text_set(before).insert(item@).contains(x) implies text_set(
                        out@,
                    ).contains(x) by {
                        if x == item@ {
                            assert(out@[before.len() as int]@ == x);
                        } else {
                            let k = choose|k: int| 0 <= k < before.len() && before[k]@ == x;
                            assert(out@[k] == before[k]);
                        }
                    }
                }
            }
        }
        proof {
            assert(text_set(out@) =~= text_set(old(out)@).union(texts(items@).take(i + 1).to_set()));
        }
        i = i + 1;
    }
    proof {
        assert(texts(items@).take(items@.len() as int) =~= texts(items@));
    }
}

/// Texts in string order, each once.
pub open spec fn texts_sorted(v: Seq<Seq<char>>) -> bool {
    forall|i: int, j: int| 0 <= i < j < v.len() ==> chars_before(#[trigger] v[i], #[trigger] v[j])
}

/// Puts a text where it belongs in a list kept in string order, unless it is
/// there.
fn insert_text(v: &mut Vec<String>, x: &String)
    requires
        texts_sorted(texts(old(v)@)),
    ensures
        texts_sorted(texts(final(v)@)),
        text_set(final(v)@) == text_set(old(v)@).insert(x@),
{
    let ghost before = texts(v@);
    let ghost bs = v@;
    let xc = chars_of(x.as_str());
    let mut p: usize = 0;
    while p < v.len() && chars_before_exec(&chars_of(v[p].as_str()), &xc)
        invariant
            p <= v@.len(),
            v@ == bs,
            before == texts(bs),
            xc@ == x@,
            texts_sorted(before),
            forall|i: int| 0 <= i < p ==> chars_before(#[trigger] before[i], x@),
        decreases v@.len() - p,
    {
        assert(before[p as int] == v@[p as int]@);
        p = p + 1;
    }
    if p < v.len() && !chars_before_exec(&xc, &chars_of(v[p].as_str())) {
        proof {
            assert(before[p as int] == v@[p as int]@);
            if before[p as int] != x@ {
                lemma_chars_before_total(before[p as int], x@);
            }
            assert(text_set(bs).insert(x@) =~= text_set(bs)) by {
                assert(bs[p as int]@ == x@);
            }
        }
        return;
    }
    proof {
        if p < v@.len() {
            assert(before[p as int] == v@[p as int]@);
        }
    }
    v.insert(p, x.clone());
    let ghost after = texts(v@);
    assert(after =~= before.insert(p as int, x@));
    assert forall|i: int, j: int| 0 <= i < j < after.len() implies chars_before(#[trigger] after[i], #[trigger] after[j]) by {
        if j < p {
            assert(after[i] == before[i] && after[j] == before[j]);
        } else if j == p {
            assert(after[i] == before[i]);
        } else if i == p {
            assert(after[j] == before[j - 1]);
            if j - 1 > p {
                assert(chars_before(before[p as int], before[j - 1]));
                lemma_chars_before_transitive(x@, before[p as int], before[j - 1]);
            }
        } else if i < p {
            assert(after[i] == before[i] && after[j] == before[j - 1]);
        } else {
            assert(after[i] == before[i - 1] && after[j] == before[j - 1]);
        }
    }
    assert forall|y: Seq<char>| #[trigger] text_set(v@).contains(y) <==> text_set(bs).insert(x@).contains(y) by {
        if text_set(v@).contains(y) {
            let k = choose|k: int| 0 <= k < v@.len() && v@[k]@ == y;
            assert(after[k] == y);
            if k < p {
                assert(bs[k]@ == y);
            } else if k > p {
                assert(bs[k - 1]@ == y);
            }
        }
        if text_set(bs).insert(x@).contains(y) {
            if y == x@ {
                assert(v@[p as int]@ == y);
            } else {
                let k = choose|k: int| 0 <= k < bs.len() && bs[k]@ == y;
                if k < p {
                    assert(v@[k]@ == y);
                } else {
                    assert(v@[k + 1]@ == y);
                }
            }
        }
    }
    assert(text_set(v@) =~= text_set(bs).insert(x@));
}

/// The texts in string order, each once.
fn sort_texts(v: &Vec<String>) -> (r: Vec<String>)
    ensures
        texts_sorted(texts(r@)),
        text_set(r@) == text_set(v@),
{
    let mut r: Vec<String> = Vec::new();
    assert(text_set(r@) =~= text_set(v@.take(0)));
    for k in 0..v.len()
        invariant
            texts_sorted(texts(r@)),
            text_set(r@) == text_set(v@.take(k as int)),
    {
        insert_text(&mut r, &v[k]);
        let ghost next = v@.take(k + 1);
        let ghost prev = v@.take(k as int);
        assert(text_set(next) =~= text_set(prev).insert(v@[k as int]@)) by {
            assert forall|y: Seq<char>| #[trigger] text_set(next).contains(y) implies text_set(prev).insert(v@[k as int]@).contains(y) by {
                let i = choose|i: int| 0 <= i < next.len() && next[i]@ == y;
                if i < k {
                    assert(prev[i]@ == y);
                }
            }
            assert forall|y: Seq<char>| text_set(prev).insert(v@[k as int]@).contains(y) implies #[trigger] text_set(next).contains(y) by {
                if y == v@[k as int]@ {
                    assert(next[k as int]@ == y);
                } else {
                    let i = choose|i: int| 0 <= i < prev.len() && prev[i]@ == y;
                    assert(next[i]@ == y);
                }
            }
        }
    }
    assert(v@.take(v@.len() as int) =~= v@);
    r
}

/// Every identity the known renderers would publish for one document, plus
/// the anchors the document declares itself, in raw HTML or in an attribute
/// block, each once, in string order; `None` exactly where some renderer's
/// search for a free spelling would never end.
pub fn anchor_set_checked(headings: &[Heading], html_anchors: &Vec<String>, declared_anchors: &Vec<String>) -> (r: Option<Vec<String>>)
    ensures
        r is Some <==> forall|i: int|
            0 <= i < rule_table().len() ==> run_ends(#[trigger] rule_table()[i], heading_views(headings@)),
        r matches Some(v) ==> {
            &&& texts_sorted(texts(v@))
            &&& text_set(v@) == texts(html_anchors@).to_set().union(texts(declared_anchors@).to_set()).union(
                published(heading_views(headings@), rule_table().len() as int),
            )
        },
{
    let mut out: Vec<String> = Vec::new();
    proof {
        assert(text_set(out@) =~= Set::empty());
        assert(texts(out@) =~= Seq::empty());
    }
    add_all(&mut out, html_anchors);
    add_all(&mut out, declared_anchors);
    let table = rules();
    let mut i: usize = 0;
    while i < table.len()
        invariant
            i <= table@.len(),
            table@ == rule_table(),
            forall|k: int| 0 <= k < i ==> run_ends(#[trigger] rule_table()[k], heading_views(headings@)),
            texts(out@).no_duplicates(),
            text_set(out@) == texts(html_anchors@).to_set().union(texts(declared_anchors@).to_set()).union(
                published(heading_views(headings@), i as int),
            ),
        decreases table@.len() - i,
    {
        let found = match identities_checked(&table[i], headings) {
            Some(found) => found,
            None => {
                return None;
            },
        };
        add_all(&mut out, &found);
        proof {
            assert(text_set(out@) =~= texts(html_anchors@).to_set().union(texts(declared_anchors@).to_set()).union(
                published(heading_views(headings@), i + 1),
            ));
        }
        i = i + 1;
    }
    proof {
        assert(text_set(Seq::<String>::empty()) =~= Set::empty());
    }
    Some(sort_texts(&out))
}

/// Every identity the known renderers would publish for one document, plus
/// the anchors the document declares itself, in raw HTML or in an attribute
/// block, each once, in string order.
pub fn anchor_set(headings: &[Heading], html_anchors: &Vec<String>, declared_anchors: &Vec<String>) -> (r: Vec<String>)
    requires
        forall|i: int|
            0 <= i < rule_table().len() ==> run_ends(#[trigger] rule_table()[i], heading_views(headings@)),
    ensures
        texts_sorted(texts(r@)),
        text_set(r@) == texts(html_anchors@).to_set().union(texts(declared_anchors@).to_set()).union(
            published(heading_views(headings@), rule_table().len() as int),
        ),
{
    match anchor_set_checked(headings, html_anchors, declared_anchors) {
        Some(v) => v,
        None => Vec::new(),
    }
}

} // verus!
