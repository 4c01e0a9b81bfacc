//! Extracts and renders individual compiled-function listings from
//! whole-module compiler output: a statement-level parser for assembler
//! text, an extractor that partitions the statement stream into
//! per-function items, a renderer that re-serializes a selected item
//! while interleaving resolved source lines and pruning dead labels,
//! and the pure core of a local request/response protocol that serves
//! "render item N" requests.

pub mod demangle;
pub mod ipc;
pub mod items;
pub mod locate;
pub mod mca;
pub mod parse;
pub mod render;
pub mod roundtrip;
pub mod select;
pub mod statements;
pub mod text;

use vstd::prelude::*;

verus! {

/// One discovered function-like unit.
#[derive(Clone, Debug)]
pub struct Item {
    /// demangled name
    pub name: String,
    /// demangled name with hash
    pub hashed: String,
    /// sequential number of the demangled name
    pub index: usize,
    /// number of statements spanned
    pub len: usize,
}

/// Ghost view of an item.
#[verifier::ext_equal]
pub ghost struct ItemView {
    pub name: Seq<char>,
    pub hashed: Seq<char>,
    pub index: int,
    pub len: int,
}

impl View for Item {
    type V = ItemView;

    open spec fn view(&self) -> ItemView {
        ItemView {
            name: self.name@,
            hashed: self.hashed@,
            index: self.index as int,
            len: self.len as int,
        }
    }
}

/// A half-open statement-index range.
#[derive(Clone, Copy, Debug, PartialEq, Eq, Structural)]
pub struct StmtRange {
    pub start: usize,
    pub end: usize,
}

impl View for StmtRange {
    type V = (int, int);

    open spec fn view(&self) -> (int, int) {
        (self.start as int, self.end as int)
    }
}

/// Strict lexicographic order on character sequences, by code point.
pub open spec fn seq_lt(a: Seq<char>, b: Seq<char>) -> bool
    decreases a.len(),
{
    if b.len() == 0 {
        false
    } else if a.len() == 0 {
        true
    } else if (a[0] as u32) < (b[0] as u32) {
        true
    } else if (b[0] as u32) < (a[0] as u32) {
        false
    } else {
        seq_lt(a.subrange(1, a.len() as int), b.subrange(1, b.len() as int))
    }
}

/// Strict order on items: by name, then hash, then occurrence index, then
/// length.  This is the stable enumeration order of discovered items.
pub open spec fn item_lt(x: ItemView, y: ItemView) -> bool {
    if x.name != y.name {
        seq_lt(x.name, y.name)
    } else if x.hashed != y.hashed {
        seq_lt(x.hashed, y.hashed)
    } else if x.index != y.index {
        x.index < y.index
    } else {
        x.len < y.len
    }
}

pub proof fn lemma_seq_lt_trichotomy(a: Seq<char>, b: Seq<char>)
    ensures
        seq_lt(a, b) || seq_lt(b, a) || a == b,
        seq_lt(a, b) ==> !seq_lt(b, a) && a != b,
    decreases a.len(),
{
    if a.len() > 0 && b.len() > 0 && a[0] == b[0] {
        lemma_seq_lt_trichotomy(a.subrange(1, a.len() as int), b.subrange(1, b.len() as int));
        if a.subrange(1, a.len() as int) == b.subrange(1, b.len() as int) {
            assert forall|i: int| 0 <= i < a.len() implies a[i] == b[i] by {
                if i > 0 {
                    assert(a.subrange(1, a.len() as int)[i - 1] == a[i]);
                    assert(b.subrange(1, b.len() as int)[i - 1] == b[i]);
                }
            }
            assert(a =~= b);
        }
        if a == b {
            assert(a.subrange(1, a.len() as int) =~= b.subrange(1, b.len() as int));
        }
    } else if a.len() > 0 && b.len() > 0 {
        if (a[0] as u32) == (b[0] as u32) {
            lemma_char_u32_injective(a[0], b[0]);
        }
    } else if a.len() == 0 && b.len() == 0 {
        assert(a =~= b);
    }
}

pub proof fn lemma_seq_lt_trans(a: Seq<char>, b: Seq<char>, c: Seq<char>)
    requires
        seq_lt(a, b),
        seq_lt(b, c),
    ensures
        seq_lt(a, c),
    decreases a.len() + b.len() + c.len(),
{
    if a.len() > 0 && b.len() > 0 && c.len() > 0 {
        if (a[0] as u32) == (b[0] as u32) {
            lemma_char_u32_injective(a[0], b[0]);
        }
        if (b[0] as u32) == (c[0] as u32) {
            lemma_char_u32_injective(b[0], c[0]);
        }
        if a[0] == b[0] && b[0] == c[0] {
            lemma_seq_lt_trans(
                a.subrange(1, a.len() as int),
                b.subrange(1, b.len() as int),
                c.subrange(1, c.len() as int),
            );
        }
    }
}

pub proof fn lemma_item_lt_trans(x: ItemView, y: ItemView, z: ItemView)
    requires
        item_lt(x, y),
        item_lt(y, z),
    ensures
        item_lt(x, z),
{
    lemma_seq_lt_trichotomy(x.name, y.name);
    lemma_seq_lt_trichotomy(y.name, z.name);
    lemma_seq_lt_trichotomy(x.name, z.name);
    lemma_seq_lt_trichotomy(x.hashed, y.hashed);
    lemma_seq_lt_trichotomy(y.hashed, z.hashed);
    lemma_seq_lt_trichotomy(x.hashed, z.hashed);
    if x.name == y.name && y.name == z.name {
        if seq_lt(x.hashed, y.hashed) && seq_lt(y.hashed, z.hashed) {
            lemma_seq_lt_trans(x.hashed, y.hashed, z.hashed);
        }
    } else if x.name == y.name {
    } else if y.name == z.name {
    } else {
        lemma_seq_lt_trans(x.name, y.name, z.name);
    }
}

pub proof fn lemma_item_lt_irrefl(x: ItemView)
    ensures
        !item_lt(x, x),
{
    lemma_seq_lt_trichotomy(x.name, x.name);
    lemma_seq_lt_trichotomy(x.hashed, x.hashed);
}

pub proof fn lemma_char_u32_injective(a: char, b: char)
    requires
        a as u32 == b as u32,
    ensures
        a == b,
{
}

/// If `a` and `b` agree before `i` and differ at `i` in `a`'s favor (or
/// `a` ends first), then `a` is lexicographically smaller.
pub proof fn lemma_seq_lt_at(a: Seq<char>, b: Seq<char>, i: int)
    requires
        0 <= i <= a.len(),
        i <= b.len(),
        forall|k: int| 0 <= k < i ==> a[k] == b[k],
        (i < a.len() && i < b.len() && (a[i] as u32) < (b[i] as u32)) || (i == a.len() && i
            < b.len()),
    ensures
        seq_lt(a, b),
    decreases i,
{
    if i > 0 {
        let a1 = a.subrange(1, a.len() as int);
        let b1 = b.subrange(1, b.len() as int);
        assert(forall|k: int| 0 <= k < i - 1 ==> a1[k] == b1[k]);
        if i < a.len() {
            assert(a1[i - 1] == a[i]);
            assert(b1[i - 1] == b[i]);
        }
        lemma_seq_lt_at(a1, b1, i - 1);
    }
}

/// Three-way comparison result.
#[derive(Clone, Copy, Debug, PartialEq, Eq, Structural)]
pub enum Cmp {
    Less,
    Equal,
    Greater,
}

/// Compares two strings in the lexicographic order `seq_lt`.
pub fn str_cmp(a: &str, b: &str) -> (c: Cmp)
    ensures
        c == Cmp::Less ==> seq_lt(a@, b@),
        c == Cmp::Equal ==> a@ == b@,
        c == Cmp::Greater ==> seq_lt(b@, a@),
{
    let an = a.unicode_len();
    let bn = b.unicode_len();
    let n = if an < bn {
        an
    } else {
        bn
    };
    let mut i: usize = 0;
    while i < n
        invariant
            i <= n,
            n == if an < bn {
                an
            } else {
                bn
            },
            an == a@.len(),
            bn == b@.len(),
            forall|k: int| 0 <= k < i ==> a@[k] == b@[k],
        decreases n - i,
    {
        let ca = a.get_char(i);
        let cb = b.get_char(i);
        let ua: u32 = ca as u32;
        let ub: u32 = cb as u32;
        if ua < ub {
            proof {
                lemma_seq_lt_at(a@, b@, i as int);
            }
            return Cmp::Less;
        }
        if ub < ua {
            proof {
                lemma_seq_lt_at(b@, a@, i as int);
            }
            return Cmp::Greater;
        }
        proof {
            lemma_char_u32_injective(ca, cb);
        }
        i = i + 1;
    }
    if an < bn {
        proof {
            lemma_seq_lt_at(a@, b@, an as int);
        }
        Cmp::Less
    } else if bn < an {
        proof {
            lemma_seq_lt_at(b@, a@, bn as int);
        }
        Cmp::Greater
    } else {
        proof {
            assert(a@ =~= b@);
        }
        Cmp::Equal
    }
}

/// Compares two items in the enumeration order.
pub fn item_cmp(x: &Item, y: &Item) -> (c: Cmp)
    ensures
        c == Cmp::Less ==> item_lt(x@, y@),
        c == Cmp::Equal ==> x@ == y@,
        c == Cmp::Greater ==> item_lt(y@, x@),
{
    match str_cmp(x.name.as_str(), y.name.as_str()) {
        Cmp::Less => {
            proof {
                lemma_seq_lt_trichotomy(x.name@, y.name@);
            }
            Cmp::Less
        },
        Cmp::Greater => {
            proof {
                lemma_seq_lt_trichotomy(x.name@, y.name@);
            }
            Cmp::Greater
        },
        Cmp::Equal => match str_cmp(x.hashed.as_str(), y.hashed.as_str()) {
            Cmp::Less => {
                proof {
                    lemma_seq_lt_trichotomy(x.hashed@, y.hashed@);
                }
                Cmp::Less
            },
            Cmp::Greater => {
                proof {
                    lemma_seq_lt_trichotomy(x.hashed@, y.hashed@);
                }
                Cmp::Greater
            },
            Cmp::Equal => {
                if x.index < y.index {
                    Cmp::Less
                } else if y.index < x.index {
                    Cmp::Greater
                } else if x.len < y.len {
                    Cmp::Less
                } else if y.len < x.len {
                    Cmp::Greater
                } else {
                    proof {
                        assert(x@ =~= y@);
                    }
                    Cmp::Equal
                }
            },
        },
    }
}

/// Insertion into a key-sorted association sequence: an equal key keeps
/// its first-inserted item and takes the new range, as a map insert does.
pub open spec fn sorted_insert_view(
    s: Seq<(ItemView, (int, int))>,
    k: ItemView,
    r: (int, int),
) -> Seq<(ItemView, (int, int))>
    decreases s.len(),
{
    if s.len() == 0 {
        seq![(k, r)]
    } else if item_lt(k, s[0].0) {
        seq![(k, r)] + s
    } else if k == s[0].0 {
        seq![(s[0].0, r)] + s.subrange(1, s.len() as int)
    } else {
        seq![s[0]] + sorted_insert_view(s.subrange(1, s.len() as int), k, r)
    }
}

/// The map assembled from a scan-ordered sequence of discoveries, by
/// inserting each in turn.
pub open spec fn fold_insert_view(s: Seq<(ItemView, (int, int))>) -> Seq<(ItemView, (int, int))>
    decreases s.len(),
{
    if s.len() == 0 {
        Seq::empty()
    } else {
        sorted_insert_view(
            fold_insert_view(s.subrange(0, s.len() - 1)),
            s[s.len() - 1].0,
            s[s.len() - 1].1,
        )
    }
}

/// Characterizes `sorted_insert_view` on a sorted sequence at the first
/// position whose key is not smaller than the new key: it either replaces
/// the equal-keyed entry or splices the new pair in there.
pub proof fn lemma_sorted_insert_at(
    s: Seq<(ItemView, (int, int))>,
    k: ItemView,
    r: (int, int),
    p: int,
    eq: bool,
)
    requires
        forall|i: int, j: int| 0 <= i < j < s.len() ==> item_lt(s[i].0, s[j].0),
        0 <= p <= s.len(),
        forall|i: int| 0 <= i < p ==> item_lt(s[i].0, k),
        eq ==> p < s.len() && s[p].0 == k,
        !eq && p < s.len() ==> item_lt(k, s[p].0),
    ensures
        eq ==> sorted_insert_view(s, k, r) == s.update(p, (s[p].0, r)),
        !eq ==> sorted_insert_view(s, k, r) == s.subrange(0, p) + seq![(k, r)] + s.subrange(
            p,
            s.len() as int,
        ),
    decreases s.len(),
{
    lemma_item_lt_irrefl(k);
    if p == 0 {
        if s.len() == 0 {
            assert(sorted_insert_view(s, k, r) =~= s.subrange(0, 0) + seq![(k, r)] + s.subrange(
                0,
                0,
            ));
        } else if eq {
            assert(!item_lt(k, s[0].0)) by {
                lemma_item_lt_irrefl(s[0].0);
            }
            assert(sorted_insert_view(s, k, r) == seq![(s[0].0, r)] + s.subrange(
                1,
                s.len() as int,
            ));
            assert(sorted_insert_view(s, k, r) =~= s.update(0, (s[0].0, r)));
        } else {
            assert(sorted_insert_view(s, k, r) =~= s.subrange(0, 0) + seq![(k, r)] + s.subrange(
                0,
                s.len() as int,
            ));
        }
    } else {
        assert(item_lt(s[0].0, k));
        lemma_item_lt_irrefl(s[0].0);
        assert(!item_lt(k, s[0].0)) by {
            if item_lt(k, s[0].0) {
                lemma_item_lt_trans(s[0].0, k, s[0].0);
            }
        }
        assert(s[0].0 != k);
        let s1 = s.subrange(1, s.len() as int);
        assert(forall|i: int| 0 <= i < s1.len() ==> s1[i] == s[i + 1]);
        lemma_sorted_insert_at(s1, k, r, p - 1, eq);
        if eq {
            assert(s1[p - 1] == s[p]);
            assert(sorted_insert_view(s, k, r) == seq![s[0]] + sorted_insert_view(s1, k, r));
            assert(sorted_insert_view(s1, k, r) == s1.update(p - 1, (s1[p - 1].0, r)));
            assert(sorted_insert_view(s, k, r) =~= s.update(p, (s[p].0, r)));
        } else {
            assert(sorted_insert_view(s, k, r) == seq![s[0]] + sorted_insert_view(s1, k, r));
            assert(sorted_insert_view(s1, k, r) == s1.subrange(0, p - 1) + seq![(k, r)]
                + s1.subrange(p - 1, s1.len() as int));
            assert(sorted_insert_view(s, k, r) =~= s.subrange(0, p) + seq![(k, r)] + s.subrange(
                p,
                s.len() as int,
            ));
        }
    }
}

/// The ordered mapping from discovered items to their statement ranges,
/// in the stable enumeration order.
pub struct ItemMap {
    pub entries: Vec<(Item, StmtRange)>,
}

impl View for ItemMap {
    type V = Seq<(ItemView, (int, int))>;

    open spec fn view(&self) -> Seq<(ItemView, (int, int))> {
        self.entries@.map(|i: int, e: (Item, StmtRange)| (e.0@, e.1@))
    }
}

impl ItemMap {
    /// Entries are strictly increasing in the enumeration order.
    pub open spec fn wf(&self) -> bool {
        forall|i: int, j: int| 0 <= i < j < self@.len() ==> item_lt(self@[i].0, self@[j].0)
    }

    pub fn new() -> (m: ItemMap)
        ensures
            m.wf(),
            m@ == Seq::<(ItemView, (int, int))>::empty(),
    {
        let m = ItemMap { entries: Vec::new() };
        proof {
            assert(m@ =~= Seq::<(ItemView, (int, int))>::empty());
        }
        m
    }

    pub fn len(&self) -> (n: usize)
        ensures
            n == self@.len(),
    {
        self.entries.len()
    }

    pub fn get(&self, i: usize) -> (e: &(Item, StmtRange))
        requires
            i < self@.len(),
        ensures
            (e.0@, e.1@) == self@[i as int],
    {
        &self.entries[i]
    }

    /// The range of the item at position `i` in enumeration order.
    pub fn nth_range(&self, i: usize) -> (r: Option<StmtRange>)
        ensures
            match r {
                Option::Some(sp) => i < self@.len() && sp@ == self@[i as int].1,
                Option::None => i >= self@.len(),
            },
    {
        if i < self.entries.len() {
            Option::Some(self.entries[i].1)
        } else {
            Option::None
        }
    }

    /// Map insertion preserving the enumeration order.
    pub fn insert(&mut self, item: Item, range: StmtRange)
        requires
            old(self).wf(),
        ensures
            final(self).wf(),
            final(self)@ == sorted_insert_view(old(self)@, item@, range@),
    {
        let ghost s = self@;
        let n = self.entries.len();
        let mut p: usize = 0;
        let mut found_eq = false;
        let mut stopped = false;
        while !stopped && p < n
            invariant
                0 <= p <= n == s.len(),
                s == self@,
                self.wf(),
                forall|i: int| 0 <= i < p ==> item_lt(s[i].0, item@),
                found_eq ==> stopped,
                stopped ==> p < n,
                stopped && found_eq ==> s[p as int].0 == item@,
                stopped && !found_eq ==> item_lt(item@, s[p as int].0),
            decreases n - p + (if stopped {
                0int
            } else {
                1int
            }),
        {
            let c = item_cmp(&self.entries[p].0, &item);
            proof {
                assert(self.entries@.map(
                    |i: int, e: (Item, StmtRange)| (e.0@, e.1@),
                )[p as int].0 == self.entries@[p as int].0@);
            }
            match c {
                Cmp::Less => {
                    p = p + 1;
                },
                Cmp::Equal => {
                    found_eq = true;
                    stopped = true;
                },
                Cmp::Greater => {
                    stopped = true;
                },
            }
        }
        proof {
            lemma_sorted_insert_at(s, item@, range@, p as int, found_eq);
        }
        if found_eq {
            let ghost kv = s[p as int].0;
            proof {
                assert(s[p as int] == (self.entries@[p as int].0@, self.entries@[p as int].1@));
            }
            let e = self.entries.remove(p);
            self.entries.insert(p, (e.0, range));
            proof {
                assert(self.entries@ =~= old(self).entries@.update(
                    p as int,
                    (old(self).entries@[p as int].0, range),
                ));
            }
            proof {
                assert forall|q: int|
                    0 <= q < self@.len() implies self@[q] == s.update(
                    p as int,
                    (kv, range@),
                )[q] by {
                    assert(self@[q] == (self.entries@[q].0@, self.entries@[q].1@));
                }
                assert(self@ =~= s.update(p as int, (kv, range@)));
                assert forall|i: int, j: int|
                    0 <= i < j < self@.len() implies item_lt(self@[i].0, self@[j].0) by {
                    assert(self@[i].0 == s[i].0);
                    assert(self@[j].0 == s[j].0);
                }
            }
        } else {
            self.entries.insert(p, (item, range));
            proof {
                let spliced = s.subrange(0, p as int) + seq![(item@, range@)] + s.subrange(
                    p as int,
                    s.len() as int,
                );
                assert forall|q: int| 0 <= q < self@.len() implies self@[q] == spliced[q] by {
                    assert(self@[q] == (self.entries@[q].0@, self.entries@[q].1@));
                }
                assert(self@ =~= spliced);
                assert forall|i: int, j: int|
                    0 <= i < j < self@.len() implies item_lt(self@[i].0, self@[j].0) by {
                    if j < p {
                        assert(self@[i].0 == s[i].0);
                        assert(self@[j].0 == s[j].0);
                    } else if j == p {
                        assert(self@[i].0 == s[i].0);
                    } else if i < p {
                        assert(self@[i].0 == s[i].0);
                        assert(self@[j].0 == s[j - 1].0);
                        if j - 1 > p {
                            assert(item_lt(item@, s[p as int].0));
                            lemma_item_lt_trans(item@, s[p as int].0, s[j - 1].0);
                        }
                    } else if i == p {
                        assert(self@[j].0 == s[j - 1].0);
                        if j - 1 > p {
                            assert(item_lt(item@, s[p as int].0));
                            lemma_item_lt_trans(item@, s[p as int].0, s[j - 1].0);
                        }
                    } else {
                        assert(self@[i].0 == s[i - 1].0);
                        assert(self@[j].0 == s[j - 1].0);
                    }
                }
            }
        }
    }
}

/// What the user asked to dump.
pub enum ToDump {
    Everything,
    ByIndex { value: usize },
    Function { function: String, nth: Option<usize> },
    Interactive,
    Unspecified,
}

/// The typed outcome of picking an item to dump: either a decision, or
/// the reason none could be made.  Only the outermost dispatcher turns a
/// fatal outcome into process termination.
pub enum DumpSelection {
    /// dump the whole file
    All,
    /// dump this statement range
    Selected(StmtRange),
    /// the requested index does not exist
    BadIndex { asked: usize, available: usize },
    /// no item name contains the requested string
    NoMatches,
    /// several items match: suggest them
    Suggest { matches: Vec<Item> },
    /// more than one item and an interactive goal: run the finder
    RunInteractive,
}

/// `needle` occurs as a contiguous subsequence of `hay`.
pub open spec fn seq_contains(hay: Seq<char>, needle: Seq<char>) -> bool {
    exists|i: int|
        0 <= i <= hay.len() - needle.len() && #[trigger] hay.subrange(i, i + needle.len())
            == needle
}

/// Substring search.
pub fn str_contains(hay: &str, needle: &str) -> (r: bool)
    ensures
        r == seq_contains(hay@, needle@),
{
    let hc = text::str_to_chars(hay);
    let nc = text::str_to_chars(needle);
    let hn = hc.len();
    let nn = nc.len();
    if nn > hn {
        proof {
            assert(!seq_contains(hay@, needle@));
        }
        return false;
    }
    let mut i: usize = 0;
    while i <= hn - nn
        invariant
            nn <= hn == hay@.len(),
            nn == needle@.len(),
            hc@ == hay@,
            nc@ == needle@,
            i <= hn - nn + 1,
            forall|q: int| 0 <= q < i ==> #[trigger] hay@.subrange(q, q + nn) != needle@,
        decreases hn - nn + 1 - i,
    {
        let mut k: usize = 0;
        let mut ok = true;
        while k < nn && ok
            invariant
                k <= nn,
                i + nn <= hn,
                hc@ == hay@,
                nc@ == needle@,
                nn == needle@.len(),
                hn == hay@.len(),
                ok ==> forall|q: int| 0 <= q < k ==> hay@[i + q] == needle@[q],
                !ok ==> k < nn && hay@[i + k] != needle@[k as int],
            decreases nn - k + (if ok {
                1int
            } else {
                0int
            }),
        {
            if hc[i + k] != nc[k] {
                ok = false;
            } else {
                k = k + 1;
            }
        }
        if ok {
            proof {
                assert(hay@.subrange(i as int, i + nn) =~= needle@);
            }
            return true;
        }
        proof {
            assert(hay@.subrange(i as int, i + nn)[k as int] == hay@[i + k]);
            assert(hay@.subrange(i as int, i + nn) != needle@);
        }
        i = i + 1;
    }
    proof {
        assert(!seq_contains(hay@, needle@)) by {
            if seq_contains(hay@, needle@) {
                let w = choose|w: int|
                    0 <= w <= hay@.len() - needle@.len() && #[trigger] hay@.subrange(
                        w,
                        w + needle@.len(),
                    ) == needle@;
                assert(hay@.subrange(w, w + nn) != needle@);
            }
        }
    }
    false
}

/// The positions, in enumeration order, of the items whose display name
/// contains `f`.
pub open spec fn filtered_positions(m: Seq<(ItemView, (int, int))>, f: Seq<char>) -> Seq<int>
    decreases m.len(),
{
    if m.len() == 0 {
        Seq::empty()
    } else {
        let pre = filtered_positions(m.subrange(0, m.len() - 1), f);
        if seq_contains(m[m.len() - 1].0.name, f) {
            pre.push(m.len() - 1)
        } else {
            pre
        }
    }
}

/// Picks the item to dump for a goal.  With exactly one item present the
/// choice is unambiguous and resolves directly, for every goal: an
/// interactive request over one item never prompts.
pub fn get_dump_range(goal: &ToDump, fmt: &render::Format, items: &ItemMap) -> (r: DumpSelection)
    ensures
        items@.len() == 1 ==> r == DumpSelection::Selected(
            StmtRange { start: items@[0].1.0 as usize, end: items@[0].1.1 as usize },
        ),
        items@.len() != 1 ==> match goal {
            ToDump::Everything => r is All,
            ToDump::ByIndex { value } => if (*value as int) < items@.len() {
                r == DumpSelection::Selected(
                    StmtRange {
                        start: items@[*value as int].1.0 as usize,
                        end: items@[*value as int].1.1 as usize,
                    },
                )
            } else {
                r == (DumpSelection::BadIndex { asked: *value, available: items@.len() as usize })
            },
            ToDump::Function { function, nth } => {
                let fp = filtered_positions(items@, function@);
                match nth {
                    Option::Some(k) => if (*k as int) < fp.len() {
                        r == DumpSelection::Selected(
                            StmtRange {
                                start: items@[fp[*k as int]].1.0 as usize,
                                end: items@[fp[*k as int]].1.1 as usize,
                            },
                        )
                    } else {
                        r == (DumpSelection::BadIndex { asked: *k, available: fp.len() as usize })
                    },
                    Option::None => if fp.len() == 1 {
                        r == DumpSelection::Selected(
                            StmtRange {
                                start: items@[fp[0]].1.0 as usize,
                                end: items@[fp[0]].1.1 as usize,
                            },
                        )
                    } else if fp.len() == 0 {
                        r is NoMatches
                    } else {
                        r is Suggest && r->matches@.map(
                            |q: int, it: Item| it@,
                        ) == fp.map(|q: int, p: int| items@[p].0)
                    },
                }
            },
            ToDump::Interactive => r is RunInteractive,
            ToDump::Unspecified => r is Suggest && r->matches@.map(|q: int, it: Item| it@)
                == Seq::new(items@.len(), |q: int| items@[q].0),
        },
{
    let n = items.len();
    if n == 1 {
        let e = items.get(0);
        return DumpSelection::Selected(e.1);
    }
    match goal {
        ToDump::Everything => DumpSelection::All,
        ToDump::ByIndex { value } => {
            if *value < n {
                let e = items.get(*value);
                DumpSelection::Selected(e.1)
            } else {
                DumpSelection::BadIndex { asked: *value, available: n }
            }
        },
        ToDump::Function { function, nth } => {
            let mut fp: Vec<usize> = Vec::new();
            let mut i: usize = 0;
            proof {
                assert(items@.subrange(0, 0) =~= Seq::<(ItemView, (int, int))>::empty());
                assert(fp@.map(|q: int, p: usize| p as int) =~= filtered_positions(
                    items@.subrange(0, 0),
                    function@,
                ));
            }
            while i < n
                invariant
                    i <= n == items@.len(),
                    forall|q: int| 0 <= q < fp@.len() ==> (#[trigger] fp@[q]) < i,
                    fp@.map(|q: int, p: usize| p as int) =~= filtered_positions(
                        items@.subrange(0, i as int),
                        function@,
                    ),
                decreases n - i,
            {
                let ghost pre = items@.subrange(0, i as int);
                let ghost post = items@.subrange(0, i + 1);
                proof {
                    assert(post.subrange(0, post.len() - 1) =~= pre);
                    assert(post[post.len() - 1] == items@[i as int]);
                }
                let e = items.get(i);
                if str_contains(e.0.name.as_str(), function.as_str()) {
                    fp.push(i);
                    proof {
                        assert(fp@.map(|q: int, p: usize| p as int) =~= filtered_positions(
                            post,
                            function@,
                        ));
                    }
                } else {
                    proof {
                        assert(fp@.map(|q: int, p: usize| p as int) =~= filtered_positions(
                            post,
                            function@,
                        ));
                    }
                }
                i = i + 1;
            }
            proof {
                assert(items@.subrange(0, n as int) =~= items@);
            }
            let ghost fpos = filtered_positions(items@, function@);
            match nth {
                Option::Some(k) => {
                    if *k < fp.len() {
                        let p = fp[*k];
                        proof {
                            assert(fp@.map(|q: int, pp: usize| pp as int)[*k as int] == fpos[*k
                                as int]);
                        }
                        let e = items.get(p);
                        DumpSelection::Selected(e.1)
                    } else {
                        DumpSelection::BadIndex { asked: *k, available: fp.len() }
                    }
                },
                Option::None => {
                    if fp.len() == 1 {
                        let p = fp[0];
                        proof {
                            assert(fp@.map(|q: int, pp: usize| pp as int)[0] == fpos[0]);
                        }
                        let e = items.get(p);
                        DumpSelection::Selected(e.1)
                    } else if fp.len() == 0 {
                        DumpSelection::NoMatches
                    } else {
                        let mut ms: Vec<Item> = Vec::new();
                        let mut q: usize = 0;
                        while q < fp.len()
                            invariant
                                q <= fp@.len(),
                                forall|t: int| 0 <= t < fp@.len() ==> (#[trigger] fp@[t])
                                    < items@.len(),
                                fp@.map(|t: int, pp: usize| pp as int) =~= fpos,
                                ms@.len() == q,
                                forall|t: int|
                                    0 <= t < q ==> (#[trigger] ms@[t])@ == items@[fpos[t]].0,
                            decreases fp@.len() - q,
                        {
                            let p = fp[q];
                            proof {
                                assert(fp@.map(|t: int, pp: usize| pp as int)[q as int]
                                    == fpos[q as int]);
                            }
                            let e = items.get(p);
                            let it = Item {
                                name: clone_string(&e.0.name),
                                hashed: clone_string(&e.0.hashed),
                                index: e.0.index,
                                len: e.0.len,
                            };
                            proof {
                                assert(it@ =~= items@[fpos[q as int]].0);
                            }
                            ms.push(it);
                            q = q + 1;
                        }
                        proof {
                            assert(ms@.map(|t: int, it: Item| it@) =~= fpos.map(
                                |t: int, p: int| items@[p].0,
                            ));
                        }
                        DumpSelection::Suggest { matches: ms }
                    }
                },
            }
        },
        ToDump::Interactive => DumpSelection::RunInteractive,
        ToDump::Unspecified => {
            let mut ms: Vec<Item> = Vec::new();
            let mut q: usize = 0;
            while q < n
                invariant
                    q <= n == items@.len(),
                    ms@.len() == q,
                    forall|t: int| 0 <= t < q ==> (#[trigger] ms@[t])@ == items@[t].0,
                decreases n - q,
            {
                let e = items.get(q);
                let it = Item {
                    name: clone_string(&e.0.name),
                    hashed: clone_string(&e.0.hashed),
                    index: e.0.index,
                    len: e.0.len,
                };
                proof {
                    assert(it@ =~= items@[q as int].0);
                }
                ms.push(it);
                q = q + 1;
            }
            proof {
                assert(ms@.map(|t: int, it: Item| it@) =~= Seq::new(
                    items@.len(),
                    |t: int| items@[t].0,
                ));
            }
            DumpSelection::Suggest { matches: ms }
        },
    }
}

fn clone_string(s: &String) -> (r: String)
    ensures
        r@ == s@,
{
    s.clone()
}

/// The display form an item is grouped under.
pub open spec fn display_of(iv: ItemView, full: bool) -> Seq<char> {
    if full {
        iv.hashed
    } else {
        iv.name
    }
}

/// Adds one item's length under its display name: appended to the
/// first-seen group for the name, or opening a new group at the end.
pub open spec fn groups_add(
    gs: Seq<(Seq<char>, Seq<int>)>,
    k: Seq<char>,
    l: int,
) -> Seq<(Seq<char>, Seq<int>)>
    decreases gs.len(),
{
    if gs.len() == 0 {
        seq![(k, seq![l])]
    } else if gs[0].0 == k {
        seq![(gs[0].0, gs[0].1.push(l))] + gs.subrange(1, gs.len() as int)
    } else {
        seq![gs[0]] + groups_add(gs.subrange(1, gs.len() as int), k, l)
    }
}

/// The length lists per display name, over the items in order.
pub open spec fn groups_fold(items: Seq<Item>, full: bool) -> Seq<(Seq<char>, Seq<int>)>
    decreases items.len(),
{
    if items.len() == 0 {
        Seq::empty()
    } else {
        groups_add(
            groups_fold(items.subrange(0, items.len() - 1), full),
            display_of(items[items.len() - 1]@, full),
            items[items.len() - 1]@.len,
        )
    }
}

proof fn lemma_ceil_log10_bounds(n: int)
    ensures
        0 <= ceil_log10(n),
        n >= 1 ==> ceil_log10(n) < n,
    decreases n,
{
    if n > 1 {
        lemma_ceil_log10_bounds((n - 1) / 10 + 1);
    }
}

/// The least width that fits `n` listing indices.
pub open spec fn ceil_log10(n: int) -> int
    decreases n,
{
    if n <= 1 {
        0
    } else {
        1 + ceil_log10((n - 1) / 10 + 1)
    }
}

pub open spec fn groups_view(gs: Seq<(String, Vec<usize>)>) -> Seq<(Seq<char>, Seq<int>)> {
    gs.map(|i: int, e: (String, Vec<usize>)| (e.0@, e.1@.map(|j: int, l: usize| l as int)))
}

/// What is suggested when no single item can be picked: the items
/// grouped by display name with their lengths, the width for listing
/// indices, and which headline applies.
pub struct Suggestion {
    /// index column width for the listing
    pub width: usize,
    /// how many items there were
    pub count: usize,
    /// nothing was found and a search string was given
    pub no_matches: bool,
    /// nothing was found and no search string was given
    pub no_functions: bool,
    /// length lists per display name, in first-seen order
    pub groups: Vec<(String, Vec<usize>)>,
}

proof fn lemma_groups_add_at(gs: Seq<(Seq<char>, Seq<int>)>, k: Seq<char>, l: int, j: int)
    requires
        0 <= j <= gs.len(),
        forall|p: int| 0 <= p < j ==> (#[trigger] gs[p]).0 != k,
        j < gs.len() ==> gs[j].0 == k,
    ensures
        j < gs.len() ==> groups_add(gs, k, l) == gs.update(j, (gs[j].0, gs[j].1.push(l))),
        j == gs.len() ==> groups_add(gs, k, l) == gs.push((k, seq![l])),
    decreases gs.len(),
{
    if gs.len() == 0 {
        assert(groups_add(gs, k, l) =~= gs.push((k, seq![l])));
    } else if j == 0 {
        assert(groups_add(gs, k, l) =~= gs.update(0, (gs[0].0, gs[0].1.push(l))));
    } else {
        let t = gs.subrange(1, gs.len() as int);
        assert(forall|p: int| 0 <= p < j - 1 ==> (#[trigger] t[p]).0 != k);
        lemma_groups_add_at(t, k, l, j - 1);
        if j < gs.len() {
            assert(t[j - 1] == gs[j]);
            assert(groups_add(gs, k, l) =~= gs.update(j, (gs[j].0, gs[j].1.push(l))));
        } else {
            assert(groups_add(gs, k, l) =~= gs.push((k, seq![l])));
        }
    }
}

/// Groups the items by display name for a suggestion listing: every
/// group holds, in scan order, the lengths of the items sharing one
/// display name, and the listing width fits the item count.  Groups
/// come out in first-seen order; callers pass items in enumeration
/// order, which sorts the short display names (a hashed display may
/// interleave across names and is listed where its name first appears).
pub fn suggest_name(search: &str, full: bool, items: &Vec<Item>) -> (r: Suggestion)
    ensures
        r.count == items@.len(),
        r.width as int == ceil_log10(items@.len() as int),
        groups_view(r.groups@) == groups_fold(items@, full),
        r.no_functions == (items@.len() == 0 && search@.len() == 0),
        r.no_matches == (items@.len() == 0 && search@.len() > 0),
{
    let n = items.len();
    let mut w: usize = 0;
    let mut x: usize = n;
    proof {
        lemma_ceil_log10_bounds(n as int);
    }
    while x > 1
        invariant
            x >= 0,
            ceil_log10(n as int) == w + ceil_log10(x as int),
            ceil_log10(n as int) <= n <= usize::MAX,
        decreases x,
    {
        proof {
            lemma_ceil_log10_bounds(x as int);
            assert(ceil_log10(x as int) == 1 + ceil_log10((x as int - 1) / 10 + 1));
            lemma_ceil_log10_bounds((x as int - 1) / 10 + 1);
        }
        x = (x - 1) / 10 + 1;
        w = w + 1;
    }
    let mut groups: Vec<(String, Vec<usize>)> = Vec::new();
    let mut i: usize = 0;
    proof {
        assert(items@.subrange(0, 0) =~= Seq::<Item>::empty());
        assert(groups_view(groups@) =~= groups_fold(items@.subrange(0, 0), full));
    }
    while i < n
        invariant
            i <= n == items@.len(),
            groups_view(groups@) =~= groups_fold(items@.subrange(0, i as int), full),
        decreases n - i,
    {
        let ghost pre = items@.subrange(0, i as int);
        let ghost post = items@.subrange(0, i + 1);
        proof {
            assert(post.subrange(0, post.len() - 1) =~= pre);
            assert(post[post.len() - 1] == items@[i as int]);
        }
        let key: String = if full {
            clone_string(&items[i].hashed)
        } else {
            clone_string(&items[i].name)
        };
        let l = items[i].len;
        proof {
            assert(key@ == display_of(items@[i as int]@, full));
        }
        let ghost gv = groups_view(groups@);
        let m = groups.len();
        let mut j: usize = 0;
        while j < m && !(groups[j].0 == key)
            invariant
                j <= m == groups@.len(),
                gv == groups_view(groups@),
                gv.len() == m,
                key@ == display_of(items@[i as int]@, full),
                forall|p: int| 0 <= p < j ==> (#[trigger] gv[p]).0 != key@,
            decreases m - j,
        {
            proof {
                assert(gv[j as int].0 == groups@[j as int].0@);
            }
            j = j + 1;
        }
        proof {
            if j < m {
                assert(gv[j as int].0 == groups@[j as int].0@);
            }
            lemma_groups_add_at(gv, key@, l as int, j as int);
        }
        if j < m {
            let e = groups.remove(j);
            let mut lens = e.1;
            lens.push(l);
            groups.insert(j, (e.0, lens));
            proof {
                assert forall|p: int|
                    0 <= p < groups@.len() implies groups_view(groups@)[p] == groups_add(
                    gv,
                    key@,
                    l as int,
                )[p] by {
                    assert(groups_view(groups@)[p] == (groups@[p].0@, groups@[p].1@.map(
                        |q: int, ll: usize| ll as int,
                    )));
                    if p == j {
                        assert(groups@[p].1@.map(|q: int, ll: usize| ll as int) =~= gv[p].1.push(
                            l as int,
                        ));
                    }
                }
                assert(groups_view(groups@) =~= groups_add(gv, key@, l as int));
                assert(groups_view(groups@) =~= groups_fold(post, full));
            }
        } else {
            let mut lens: Vec<usize> = Vec::new();
            lens.push(l);
            groups.push((key, lens));
            proof {
                assert forall|p: int|
                    0 <= p < groups@.len() implies groups_view(groups@)[p] == groups_add(
                    gv,
                    key@,
                    l as int,
                )[p] by {
                    assert(groups_view(groups@)[p] == (groups@[p].0@, groups@[p].1@.map(
                        |q: int, ll: usize| ll as int,
                    )));
                }
                assert(groups_view(groups@) =~= groups_add(gv, key@, l as int));
                assert(groups_view(groups@) =~= groups_fold(post, full));
            }
        }
        i = i + 1;
    }
    proof {
        assert(items@.subrange(0, n as int) =~= items@);
    }
    let none_found = groups.len() == 0 && n == 0;
    let search_empty = search.unicode_len() == 0;
    Suggestion {
        width: w,
        count: n,
        no_matches: n == 0 && !search_empty,
        no_functions: n == 0 && search_empty,
        groups,
    }
}

} // verus!
