//! The quote map: name/file entries kept sorted by name, with lookup and
//! an autocomplete filter over the names.

use vstd::prelude::*;
use vstd::map::*;
use crate::text::lex_lt;
use crate::text::lemma_lex_lt_irreflexive;
use crate::text::lemma_lex_lt_trans;
use crate::text::lemma_lex_lt_total;
use crate::text::str_lt;
use crate::text::norm;
use crate::text::contains_seq;
use crate::text::normalize;
use crate::text::contains_chars;

verus! {

/// One quote: its display name and the image file that holds it.
pub struct QuoteEntry {
    pub name: String,
    pub file: String,
}

impl View for QuoteEntry {
    type V = (Seq<char>, Seq<char>);

    open spec fn view(&self) -> (Seq<char>, Seq<char>) {
        (self.name@, self.file@)
    }
}

impl DeepView for QuoteEntry {
    type V = (Seq<char>, Seq<char>);

    open spec fn deep_view(&self) -> (Seq<char>, Seq<char>) {
        self@
    }
}

/// The map described by a sequence of name/file pairs; a later pair
/// overwrites an earlier one that bears the same name.
pub open spec fn map_of(entries: Seq<(Seq<char>, Seq<char>)>) -> Map<Seq<char>, Seq<char>>
    decreases entries.len(),
{
    if entries.len() == 0 {
        Map::empty()
    } else {
        map_of(entries.drop_last()).insert(entries.last().0, entries.last().1)
    }
}

/// Law: the map of a sequence of pairs holds exactly the names that occur
/// in the sequence.
pub proof fn lemma_map_of_contains(entries: Seq<(Seq<char>, Seq<char>)>, k: Seq<char>)
    ensures
        map_of(entries).contains_key(k) <==> exists|i: int|
            0 <= i < entries.len() && (#[trigger] entries[i]).0 == k,
    decreases entries.len(),
{
    if entries.len() > 0 {
        lemma_map_of_contains(entries.drop_last(), k);
        if map_of(entries).contains_key(k) {
            if entries.last().0 == k {
                assert(entries[entries.len() - 1].0 == k);
            } else {
                let i = choose|i: int|
                    0 <= i < entries.drop_last().len() && (#[trigger] entries.drop_last()[i]).0
                        == k;
                assert(entries[i].0 == k);
            }
        }
        if exists|i: int| 0 <= i < entries.len() && (#[trigger] entries[i]).0 == k {
            let i = choose|i: int| 0 <= i < entries.len() && (#[trigger] entries[i]).0 == k;
            if i < entries.len() - 1 {
                assert(entries.drop_last()[i].0 == k);
            }
        }
    }
}

/// Law: the value under a name is the file of the last pair that bears
/// that name.
pub proof fn lemma_map_of_last_wins(entries: Seq<(Seq<char>, Seq<char>)>, i: int)
    requires
        0 <= i < entries.len(),
        forall|j: int| i < j < entries.len() ==> (#[trigger] entries[j]).0 != entries[i].0,
    ensures
        map_of(entries).contains_key(entries[i].0),
        map_of(entries)[entries[i].0] == entries[i].1,
    decreases entries.len(),
{
    if i < entries.len() - 1 {
        assert(forall|j: int|
            i < j < entries.drop_last().len() ==> (#[trigger] entries.drop_last()[j]).0
                != entries.drop_last()[i].0);
        lemma_map_of_last_wins(entries.drop_last(), i);
        assert(entries[entries.len() - 1].0 != entries[i].0);
    }
}

/// The names of a sequence of pairs, in the order they stand.
pub open spec fn names_of(s: Seq<(Seq<char>, Seq<char>)>) -> Seq<Seq<char>> {
    Seq::new(s.len(), |i: int| s[i].0)
}

/// The names among `s` that contain `q` as a contiguous run of characters,
/// in the order they stand in `s`.
pub open spec fn matching_names(s: Seq<(Seq<char>, Seq<char>)>, q: Seq<char>) -> Seq<Seq<char>> {
    names_of(s).filter(|m: Seq<char>| contains_seq(m, q))
}

/// The pairs are strictly sorted by name, so each name occurs once.
pub open spec fn sorted_strict(s: Seq<(Seq<char>, Seq<char>)>) -> bool {
    forall|i: int, j: int|
        0 <= i < j < s.len() ==> lex_lt((#[trigger] s[i]).0, (#[trigger] s[j]).0)
}

/// In a strictly sorted sequence every name is distinct, so the map holds
/// each pair's file under its name.
pub proof fn lemma_sorted_map_value(s: Seq<(Seq<char>, Seq<char>)>, i: int)
    requires
        sorted_strict(s),
        0 <= i < s.len(),
    ensures
        map_of(s).contains_key(s[i].0),
        map_of(s)[s[i].0] == s[i].1,
{
    assert forall|j: int| i < j < s.len() implies (#[trigger] s[j]).0 != s[i].0 by {
        if s[j].0 == s[i].0 {
            lemma_lex_lt_irreflexive(s[i].0);
        }
    }
    lemma_map_of_last_wins(s, i);
}

/// Names in strictly ascending lexicographic order.
pub open spec fn sorted_names(r: Seq<Seq<char>>) -> bool {
    forall|i: int, j: int| 0 <= i < j < r.len() ==> lex_lt(r[i], r[j])
}

/// Law: over strictly sorted entries the matching names stay strictly
/// sorted, and each of them is the name of one of the entries.
pub proof fn lemma_matching_names_sorted(s: Seq<(Seq<char>, Seq<char>)>, q: Seq<char>)
    requires
        sorted_strict(s),
    ensures
        sorted_names(matching_names(s, q)),
        forall|i: int|
            0 <= i < matching_names(s, q).len() ==> exists|j: int|
                0 <= j < s.len() && s[j].0 == #[trigger] matching_names(s, q)[i],
    decreases s.len(),
{
    reveal(Seq::filter);
    if s.len() > 0 {
        let d = s.drop_last();
        assert forall|p: int, r: int| 0 <= p < r < d.len() implies lex_lt(
            (#[trigger] d[p]).0,
            (#[trigger] d[r]).0,
        ) by {
            assert(d[p] == s[p] && d[r] == s[r]);
        }
        lemma_matching_names_sorted(d, q);
        let prev = matching_names(d, q);
        let cur = matching_names(s, q);
        assert(names_of(s).drop_last() =~= names_of(d));
        assert(names_of(s).last() == s.last().0);
        assert(cur == if contains_seq(s.last().0, q) {
            prev.push(s.last().0)
        } else {
            prev
        });
        assert forall|i: int| 0 <= i < cur.len() implies exists|j: int|
            0 <= j < s.len() && s[j].0 == #[trigger] cur[i] by {
            if i < prev.len() {
                assert(cur[i] == prev[i]);
                let j = choose|j: int| 0 <= j < d.len() && d[j].0 == prev[i];
                assert(s[j].0 == cur[i]);
            } else {
                assert(s[s.len() - 1].0 == cur[i]);
            }
        }
        assert forall|p: int, r: int| 0 <= p < r < cur.len() implies lex_lt(cur[p], cur[r]) by {
            if r == cur.len() - 1 && cur.len() > prev.len() {
                if p < prev.len() {
                    let j = choose|j: int| 0 <= j < d.len() && d[j].0 == prev[p];
                    assert(lex_lt(s[j].0, s[s.len() - 1].0));
                }
            } else {
                assert(cur[p] == prev[p] && cur[r] == prev[r]);
            }
        }
    }
}

/// Law: a strictly sorted sequence of pairs is determined by its map; two
/// sorted sequences that describe the same map are the same sequence.
pub proof fn lemma_sorted_map_canonical(
    s1: Seq<(Seq<char>, Seq<char>)>,
    s2: Seq<(Seq<char>, Seq<char>)>,
)
    requires
        sorted_strict(s1),
        sorted_strict(s2),
        map_of(s1) == map_of(s2),
    ensures
        s1 == s2,
    decreases s1.len(),
{
    if s1.len() == 0 {
        if s2.len() > 0 {
            lemma_sorted_map_value(s2, s2.len() - 1);
            lemma_map_of_contains(s1, s2.last().0);
        }
        assert(s1 =~= s2);
    } else if s2.len() == 0 {
        lemma_sorted_map_value(s1, s1.len() - 1);
        lemma_map_of_contains(s2, s1.last().0);
    } else {
        let k1 = s1.last().0;
        let k2 = s2.last().0;
        lemma_sorted_map_value(s1, s1.len() - 1);
        lemma_sorted_map_value(s2, s2.len() - 1);
        if k1 != k2 {
            lemma_lex_lt_total(k1, k2);
            if lex_lt(k1, k2) {
                lemma_map_of_contains(s1, k2);
                let i = choose|i: int| 0 <= i < s1.len() && (#[trigger] s1[i]).0 == k2;
                assert(i < s1.len() - 1);
                assert(lex_lt(k2, k1));
                lemma_lex_lt_trans(k1, k2, k1);
                lemma_lex_lt_irreflexive(k1);
            } else {
                lemma_map_of_contains(s2, k1);
                let i = choose|i: int| 0 <= i < s2.len() && (#[trigger] s2[i]).0 == k1;
                assert(i < s2.len() - 1);
                assert(lex_lt(k1, k2));
                lemma_lex_lt_trans(k2, k1, k2);
                lemma_lex_lt_irreflexive(k2);
            }
        }
        assert(s1.last().1 == s2.last().1);
        let d1 = s1.drop_last();
        let d2 = s2.drop_last();
        assert forall|p: int, q: int| 0 <= p < q < d1.len() implies lex_lt(
            (#[trigger] d1[p]).0,
            (#[trigger] d1[q]).0,
        ) by {
            assert(d1[p] == s1[p] && d1[q] == s1[q]);
        }
        assert forall|p: int, q: int| 0 <= p < q < d2.len() implies lex_lt(
            (#[trigger] d2[p]).0,
            (#[trigger] d2[q]).0,
        ) by {
            assert(d2[p] == s2[p] && d2[q] == s2[q]);
        }
        lemma_map_of_contains(d1, k1);
        if map_of(d1).contains_key(k1) {
            let i = choose|i: int| 0 <= i < d1.len() && (#[trigger] d1[i]).0 == k1;
            assert(d1[i] == s1[i]);
            assert(lex_lt(s1[i].0, k1));
            lemma_lex_lt_irreflexive(k1);
        }
        lemma_map_of_contains(d2, k2);
        if map_of(d2).contains_key(k2) {
            let i = choose|i: int| 0 <= i < d2.len() && (#[trigger] d2[i]).0 == k2;
            assert(d2[i] == s2[i]);
            assert(lex_lt(s2[i].0, k2));
            lemma_lex_lt_irreflexive(k2);
        }
        assert(map_of(s1) == map_of(d1).insert(k1, s1.last().1));
        assert(map_of(s2) == map_of(d2).insert(k2, s2.last().1));
        assert_maps_equal!(map_of(d1), map_of(d2), x => {
            if x != k1 {
                assert(map_of(d1).contains_key(x) == map_of(s1).contains_key(x));
                assert(map_of(d2).contains_key(x) == map_of(s2).contains_key(x));
                if map_of(d1).contains_key(x) {
                    assert(map_of(d1)[x] == map_of(s1)[x]);
                    assert(map_of(d2)[x] == map_of(s2)[x]);
                }
            }
        });
        lemma_sorted_map_canonical(d1, d2);
        assert forall|i: int| 0 <= i < s1.len() implies s1[i] == s2[i] by {
            if i < s1.len() - 1 {
                assert(s1[i] == d1[i] && s2[i] == d2[i]);
            }
        }
        assert(s1 =~= s2);
    }
}

/// The quote map. Entries are kept strictly sorted by name.
pub struct Quote {
    entries: Vec<QuoteEntry>,
}

impl View for Quote {
    type V = Seq<(Seq<char>, Seq<char>)>;

    closed spec fn view(&self) -> Seq<(Seq<char>, Seq<char>)> {
        self.entries@.map_values(|e: QuoteEntry| e@)
    }
}

impl Quote {
    /// A quote map is well formed when its entries are strictly sorted by
    /// name.
    pub open spec fn wf(&self) -> bool {
        sorted_strict(self@)
    }

    /// How many quotes the map holds.
    pub fn len(&self) -> (n: usize)
        ensures
            n == self@.len(),
    {
        self.entries.len()
    }

    /// Finds the file registered under `key`, exactly when the map holds
    /// that name.
    pub fn lookup(&self, key: &str) -> (r: Option<&String>)
        requires
            self.wf(),
        ensures
            r is Some <==> map_of(self@).contains_key(key@),
            (r matches Some(f) ==> f@ == map_of(self@)[key@]),
    {
        let k = key.to_owned();
        let n = self.entries.len();
        let mut i: usize = 0;
        while i < n
            invariant
                self.wf(),
                n == self@.len(),
                i <= n,
                k@ == key@,
                forall|p: int| 0 <= p < i ==> (#[trigger] self@[p]).0 != key@,
            decreases n - i,
        {
            if self.entries[i].name == k {
                proof {
                    assert(self@[i as int].0 == key@);
                    lemma_sorted_map_value(self@, i as int);
                }
                return Some(&self.entries[i].file);
            }
            proof {
                assert(self@[i as int].0 != key@);
            }
            i = i + 1;
        }
        proof {
            lemma_map_of_contains(self@, key@);
        }
        None
    }

    /// Registers `file` under `name`, keeping the entries sorted by name;
    /// an entry that already bears the name has its file replaced.
    pub fn insert(&mut self, name: String, file: String)
        requires
            old(self).wf(),
        ensures
            final(self).wf(),
            map_of(final(self)@) == map_of(old(self)@).insert(name@, file@),
    {
        let ghost s = self@;
        let ghost k = name@;
        let ghost v = file@;
        let n = self.entries.len();
        let mut j: usize = 0;
        loop
            invariant_except_break
                self.wf(),
                self@ == s,
                k == name@,
                n == s.len(),
                j <= n,
                forall|p: int| 0 <= p < j ==> lex_lt((#[trigger] s[p]).0, k),
            ensures
                self.wf(),
                self@ == s,
                n == s.len(),
                j <= n,
                forall|p: int| 0 <= p < j ==> lex_lt((#[trigger] s[p]).0, k),
                j < n ==> !lex_lt(s[j as int].0, k),
            decreases n - j,
        {
            if j == n {
                break;
            }
            proof {
                assert(s[j as int] == self.entries@[j as int]@);
            }
            let below = str_lt(self.entries[j].name.as_str(), name.as_str());
            proof {
                assert(below == lex_lt(s[j as int].0, k));
            }
            if !below {
                break;
            }
            j = j + 1;
        }
        let replace = j < n && self.entries[j].name == name;
        if replace {
            self.entries.remove(j);
            self.entries.insert(j, QuoteEntry { name, file });
            proof {
                let t = s.update(j as int, (k, v));
                assert(self@ =~= t);
                assert(s[j as int].0 == k);
                assert forall|p: int, q: int| 0 <= p < q < t.len() implies lex_lt(
                    (#[trigger] t[p]).0,
                    (#[trigger] t[q]).0,
                ) by {
                    assert(t[p].0 == s[p].0);
                    assert(t[q].0 == s[q].0);
                }
                assert_maps_equal!(map_of(t), map_of(s).insert(k, v), x => {
                    lemma_map_of_contains(t, x);
                    lemma_map_of_contains(s, x);
                    if map_of(t).contains_key(x) {
                        let i = choose|i: int| 0 <= i < t.len() && (#[trigger] t[i]).0 == x;
                        assert(s[i].0 == x);
                    }
                    if map_of(s).contains_key(x) {
                        let i = choose|i: int| 0 <= i < s.len() && (#[trigger] s[i]).0 == x;
                        assert(t[i].0 == x);
                    }
                    if x == k {
                        assert(t[j as int].0 == x);
                        lemma_sorted_map_value(t, j as int);
                    } else if map_of(t).contains_key(x) {
                        let i = choose|i: int| 0 <= i < t.len() && (#[trigger] t[i]).0 == x;
                        lemma_sorted_map_value(t, i);
                        lemma_sorted_map_value(s, i);
                    }
                });
            }
        } else {
            self.entries.insert(j, QuoteEntry { name, file });
            proof {
                let t = s.insert(j as int, (k, v));
                assert(self@ =~= t);
                if (j as int) < s.len() {
                    lemma_lex_lt_total(k, s[j as int].0);
                    assert(lex_lt(k, s[j as int].0));
                }
                assert forall|p: int, q: int| 0 <= p < q < t.len() implies lex_lt(
                    (#[trigger] t[p]).0,
                    (#[trigger] t[q]).0,
                ) by {
                    if q < j {
                        assert(t[p].0 == s[p].0 && t[q].0 == s[q].0);
                    } else if p > j {
                        assert(t[p].0 == s[p - 1].0 && t[q].0 == s[q - 1].0);
                    } else if p < j && q == j {
                        assert(t[p].0 == s[p].0 && t[q].0 == k);
                    } else if p < j && q > j {
                        assert(t[p].0 == s[p].0 && t[q].0 == s[q - 1].0);
                        if q - 1 < j {
                            assert(lex_lt(s[p].0, s[q - 1].0));
                        } else if q - 1 == j {
                            lemma_lex_lt_trans(s[p].0, k, s[j as int].0);
                        }
                    } else {
                        assert(p == j && q > j);
                        assert(t[p].0 == k && t[q].0 == s[q - 1].0);
                        if q - 1 > j {
                            lemma_lex_lt_trans(k, s[j as int].0, s[q - 1].0);
                        }
                    }
                }
                assert_maps_equal!(map_of(t), map_of(s).insert(k, v), x => {
                    lemma_map_of_contains(t, x);
                    lemma_map_of_contains(s, x);
                    assert(t[j as int].0 == k);
                    if map_of(t).contains_key(x) && x != k {
                        let i = choose|i: int| 0 <= i < t.len() && (#[trigger] t[i]).0 == x;
                        if i < j {
                            assert(s[i].0 == x);
                        } else {
                            assert(s[i - 1].0 == x);
                        }
                    }
                    if map_of(s).contains_key(x) && x != k {
                        let i = choose|i: int| 0 <= i < s.len() && (#[trigger] s[i]).0 == x;
                        if i < j {
                            assert(t[i].0 == x);
                        } else {
                            assert(t[i + 1].0 == x);
                        }
                    }
                    if x == k {
                        lemma_sorted_map_value(t, j as int);
                    } else if map_of(t).contains_key(x) {
                        let i = choose|i: int| 0 <= i < t.len() && (#[trigger] t[i]).0 == x;
                        lemma_sorted_map_value(t, i);
                        if i < j {
                            lemma_sorted_map_value(s, i);
                        } else {
                            lemma_sorted_map_value(s, i - 1);
                        }
                    }
                });
            }
        }
    }

    /// Builds the quote map from a list of entries, a later entry
    /// overwriting an earlier one that bears the same name.
    pub fn new(entries: Vec<QuoteEntry>) -> (q: Quote)
        ensures
            q.wf(),
            map_of(q@) == map_of(entries.deep_view()),
    {
        let ghost all = entries.deep_view();
        let mut q = Quote { entries: Vec::new() };
        proof {
            assert(q@ =~= Seq::<(Seq<char>, Seq<char>)>::empty());
            assert(all.take(0) =~= Seq::<(Seq<char>, Seq<char>)>::empty());
        }
        let n = entries.len();
        let mut i: usize = 0;
        while i < n
            invariant
                q.wf(),
                n == entries@.len(),
                i <= n,
                all == entries.deep_view(),
                map_of(q@) == map_of(all.take(i as int)),
            decreases n - i,
        {
            let name = entries[i].name.clone();
            let file = entries[i].file.clone();
            q.insert(name, file);
            proof {
                assert(all.take(i + 1).drop_last() =~= all.take(i as int));
                assert(all.take(i + 1).last() == all[i as int]);
                assert(map_of(all.take(i + 1)) == map_of(all.take(i as int)).insert(
                    all[i as int].0,
                    all[i as int].1,
                ));
            }
            i = i + 1;
        }
        proof {
            assert(all.take(n as int) =~= all);
        }
        q
    }

    /// All quote names that contain the normalized query — the query
    /// ASCII-lowercased and with its spaces removed — in the order the
    /// entries stand, which is sorted by name.
    pub fn autocomplete(&self, query: &str) -> (r: Vec<String>)
        requires
            self.wf(),
        ensures
            r.deep_view() == matching_names(self@, norm(query@)),
    {
        let nq = normalize(query);
        let mut r: Vec<String> = Vec::new();
        let n = self.entries.len();
        let mut i: usize = 0;
        proof {
            assert(names_of(self@.take(0)) =~= Seq::<Seq<char>>::empty());
            assert(r.deep_view() =~= matching_names(self@.take(0), norm(query@)));
        }
        while i < n
            invariant
                self.wf(),
                n == self@.len(),
                i <= n,
                nq@ == norm(query@),
                r.deep_view() == matching_names(self@.take(i as int), norm(query@)),
            decreases n - i,
        {
            let ghost r0 = r.deep_view();
            let hit = contains_chars(self.entries[i].name.as_str(), &nq);
            proof {
                assert(self@[i as int] == self.entries@[i as int]@);
                assert(hit == contains_seq(self@[i as int].0, norm(query@)));
            }
            if hit {
                let picked = self.entries[i].name.clone();
                r.push(picked);
                proof {
                    assert(r.deep_view() =~= r0.push(self@[i as int].0));
                }
            }
            proof {
                let q = norm(query@);
                let prev = names_of(self@.take(i as int));
                let cur = names_of(self@.take(i + 1));
                assert(cur.drop_last() =~= prev);
                assert(cur.last() == self@[i as int].0);
                assert(cur == prev.push(self@[i as int].0));
                reveal_with_fuel(Seq::filter, 2);
                assert(matching_names(self@.take(i + 1), q) == if contains_seq(
                    self@[i as int].0,
                    q,
                ) {
                    matching_names(self@.take(i as int), q).push(self@[i as int].0)
                } else {
                    matching_names(self@.take(i as int), q)
                });
            }
            i = i + 1;
        }
        proof {
            assert(self@.take(n as int) =~= self@);
        }
        r
    }

    /// Whether the map holds a quote under `key`.
    pub fn contains_key(&self, key: &str) -> (r: bool)
        requires
            self.wf(),
        ensures
            r == map_of(self@).contains_key(key@),
    {
        self.lookup(key).is_some()
    }
}

impl Default for Quote {
    /// The empty quote map.
    fn default() -> (q: Quote)
        ensures
            q.wf(),
            q@ == Seq::<(Seq<char>, Seq<char>)>::empty(),
    {
        let q = Quote { entries: Vec::new() };
        proof {
            assert(q@ =~= Seq::<(Seq<char>, Seq<char>)>::empty());
        }
        q
    }
}

} // verus!
