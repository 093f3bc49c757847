//! Category Catalog: the deterministic label-to-index bijection derived
//! from the full record set.

use vstd::prelude::*;
use vstd::relations::{sorted_by, total_ordering};
use vstd::seq_lib::lemma_sorted_unique;
use vstd::string::StrSliceExecFns;
use vstd::utf8::char_u32_cast;

use crate::entry::{Entry, EntryV, entry_views};
use crate::feature::{Error, Feat, Rat, feats_wf, rats};

verus! {

// ------------------------------------------------------------------
// Lexicographic order on labels
// ------------------------------------------------------------------
/// Strict lexicographic order on character sequences, by code point.
/// For UTF-8 text this agrees with the byte-wise order of the encoded
/// strings.
pub open spec fn lex_lt(a: Seq<char>, b: Seq<char>) -> bool
    decreases a.len(),
{
    if b.len() == 0 {
        false
    } else if a.len() == 0 {
        true
    } else if (a[0] as u32) < (b[0] as u32) {
        true
    } else if (a[0] as u32) > (b[0] as u32) {
        false
    } else {
        lex_lt(a.drop_first(), b.drop_first())
    }
}

pub proof fn lemma_lex_lt_irrefl(a: Seq<char>)
    ensures
        !lex_lt(a, a),
    decreases a.len(),
{
    if a.len() > 0 {
        lemma_lex_lt_irrefl(a.drop_first());
    }
}

pub proof fn lemma_lex_lt_trans(a: Seq<char>, b: Seq<char>, c: Seq<char>)
    requires
        lex_lt(a, b),
        lex_lt(b, c),
    ensures
        lex_lt(a, c),
    decreases a.len(),
{
    if c.len() == 0 || a.len() == 0 {
    } else {
        assert(b.len() > 0);
        if (a[0] as u32) == (b[0] as u32) && (b[0] as u32) == (c[0] as u32) {
            lemma_lex_lt_trans(a.drop_first(), b.drop_first(), c.drop_first());
        }
    }
}

/// Any two distinct character sequences are ordered one way or the other.
pub proof fn lemma_lex_lt_connected(a: Seq<char>, b: Seq<char>)
    ensures
        a == b || lex_lt(a, b) || lex_lt(b, a),
    decreases a.len(),
{
    if a.len() == 0 && b.len() == 0 {
        assert(a =~= b);
    } else if a.len() > 0 && b.len() > 0 {
        if (a[0] as u32) == (b[0] as u32) {
            char_u32_cast(a[0], a[0] as u32);
            char_u32_cast(b[0], b[0] as u32);
            assert(a[0] == b[0]);
            lemma_lex_lt_connected(a.drop_first(), b.drop_first());
            if a.drop_first() == b.drop_first() {
                assert(a.drop_first().len() == a.len() - 1);
                assert(b.drop_first().len() == b.len() - 1);
                assert(a.len() == b.len());
                assert forall|i: int| 0 <= i < a.len() implies a[i] == b[i] by {
                    if i > 0 {
                        assert(a[i] == a.drop_first()[i - 1]);
                        assert(b[i] == b.drop_first()[i - 1]);
                    }
                }
                assert(a =~= b);
            }
        }
    }
}

/// Decides the strict lexicographic order on two strings.
fn lex_lt_exec(a: &str, b: &str) -> (r: bool)
    ensures
        r == lex_lt(a@, b@),
{
    let an = a.unicode_len();
    let bn = b.unicode_len();
    let mut i: usize = 0;
    proof {
        assert(a@.skip(0) =~= a@);
        assert(b@.skip(0) =~= b@);
    }
    loop
        invariant
            i <= an,
            i <= bn,
            an == a@.len(),
            bn == b@.len(),
            lex_lt(a@, b@) == lex_lt(a@.skip(i as int), b@.skip(i as int)),
        decreases an - i,
    {
        if i >= bn {
            proof {
                assert(b@.skip(i as int).len() == 0);
            }
            return false;
        }
        if i >= an {
            proof {
                assert(a@.skip(i as int).len() == 0);
            }
            return true;
        }
        let ca = a.get_char(i);
        let cb = b.get_char(i);
        proof {
            assert(a@.skip(i as int)[0] == a@[i as int]);
            assert(b@.skip(i as int)[0] == b@[i as int]);
        }
        if (ca as u32) < (cb as u32) {
            return true;
        }
        if (ca as u32) > (cb as u32) {
            return false;
        }
        proof {
            assert(a@.skip(i as int).drop_first() =~= a@.skip(i + 1));
            assert(b@.skip(i as int).drop_first() =~= b@.skip(i + 1));
        }
        i = i + 1;
    }
}

/// Decides string equality character by character.
fn str_eq_exec(a: &str, b: &str) -> (r: bool)
    ensures
        r == (a@ == b@),
{
    let an = a.unicode_len();
    let bn = b.unicode_len();
    if an != bn {
        proof {
            if a@ == b@ {
                assert(a@.len() == b@.len());
            }
        }
        return false;
    }
    let mut i: usize = 0;
    while i < an
        invariant
            i <= an,
            an == a@.len(),
            an == b@.len(),
            forall|k: int| 0 <= k < i ==> a@[k] == b@[k],
        decreases an - i,
    {
        let ca = a.get_char(i);
        let cb = b.get_char(i);
        if (ca as u32) != (cb as u32) {
            proof {
                if a@ == b@ {
                    assert(a@[i as int] == b@[i as int]);
                }
            }
            return false;
        }
        proof {
            char_u32_cast(ca, ca as u32);
            char_u32_cast(cb, cb as u32);
            assert(a@[i as int] == b@[i as int]);
        }
        i = i + 1;
    }
    proof {
        assert(a@ =~= b@);
    }
    true
}

// ------------------------------------------------------------------
// The catalog
// ------------------------------------------------------------------
/// Labels in strictly ascending lexicographic order: sorted, and thereby
/// free of duplicates.
pub open spec fn sorted_strict(s: Seq<Seq<char>>) -> bool {
    forall|i: int, j: int| 0 <= i < j < s.len() ==> lex_lt(#[trigger] s[i], #[trigger] s[j])
}

/// The distinct category labels of a record sequence.
pub open spec fn categories_of(rs: Seq<EntryV>) -> Set<Seq<char>> {
    Set::new(|s: Seq<char>| exists|i: int| 0 <= i < rs.len() && (#[trigger] rs[i]).category == s)
}

/// The deterministic label-to-index mapping: all distinct category
/// labels of the record set, in ascending lexicographic order, indexed
/// `0..n-1`.
pub struct Catalog {
    labels: Vec<String>,
}

impl View for Catalog {
    type V = Seq<Seq<char>>;

    closed spec fn view(&self) -> Seq<Seq<char>> {
        self.labels.deep_view()
    }
}

/// Index of the first occurrence of `s` in `c`.
pub open spec fn idx_of(c: Seq<Seq<char>>, s: Seq<char>) -> int
    decreases c.len(),
{
    if c.len() == 0 {
        0
    } else if c[0] == s {
        0
    } else {
        1 + idx_of(c.drop_first(), s)
    }
}

pub proof fn lemma_idx_of(c: Seq<Seq<char>>, s: Seq<char>)
    requires
        c.contains(s),
    ensures
        0 <= idx_of(c, s) < c.len(),
        c[idx_of(c, s)] == s,
        forall|k: int| 0 <= k < idx_of(c, s) ==> c[k] != s,
    decreases c.len(),
{
    if c.len() > 0 && c[0] != s {
        let i = choose|i: int| 0 <= i < c.len() && c[i] == s;
        assert(c.drop_first()[i - 1] == s);
        assert(c.drop_first().contains(s));
        lemma_idx_of(c.drop_first(), s);
        assert(c[idx_of(c, s)] == c.drop_first()[idx_of(c.drop_first(), s)]);
        assert forall|k: int| 0 <= k < idx_of(c, s) implies c[k] != s by {
            if k > 0 {
                assert(c[k] == c.drop_first()[k - 1]);
            }
        }
    }
}

/// The one-hot vector of width `n` with its single `1` at index `k`.
pub open spec fn one_hot(n: int, k: int) -> Seq<Rat> {
    Seq::new(
        n as nat,
        |i: int|
            if i == k {
                Rat { num: 1, den: 1 }
            } else {
                Rat { num: 0, den: 1 }
            },
    )
}

/// Inserts `cat` into the sorted label list, keeping it sorted and
/// duplicate-free.
fn insert_label(labels: &mut Vec<String>, cat: &String)
    requires
        sorted_strict(old(labels).deep_view()),
    ensures
        sorted_strict(final(labels).deep_view()),
        final(labels).deep_view().to_set() == old(labels).deep_view().to_set().insert(cat@),
{
    let ghost lv = labels.deep_view();
    let n = labels.len();
    let mut i: usize = 0;
    loop
        invariant
            i <= n,
            n == lv.len(),
            lv == labels.deep_view(),
            labels@.len() == n,
            forall|k: int| 0 <= k < i ==> lex_lt(#[trigger] lv[k], cat@),
        ensures
            i <= n,
            forall|k: int| 0 <= k < i ==> lex_lt(#[trigger] lv[k], cat@),
            i < n ==> !lex_lt(lv[i as int], cat@),
        decreases n - i,
    {
        if i == n {
            break ;
        }
        if !lex_lt_exec(labels[i].as_str(), cat.as_str()) {
            break ;
        }
        i = i + 1;
    }
    if i < n && str_eq_exec(labels[i].as_str(), cat.as_str()) {
        proof {
            assert(lv[i as int] == cat@);
            assert(lv.contains(cat@));
            assert(lv.to_set() =~= lv.to_set().insert(cat@));
        }
        return ;
    }
    proof {
        if i < n {
            assert(!lex_lt(lv[i as int], cat@));
            assert(lv[i as int] != cat@);
            lemma_lex_lt_connected(lv[i as int], cat@);
            assert(lex_lt(cat@, lv[i as int]));
        }
        assert forall|k: int| i <= k < n implies lex_lt(cat@, #[trigger] lv[k]) by {
            if k > i {
                lemma_lex_lt_trans(cat@, lv[i as int], lv[k]);
            }
        }
    }
    labels.insert(i, cat.clone());
    proof {
        let nv = labels.deep_view();
        assert(nv =~= lv.insert(i as int, cat@));
        assert forall|p: int, q: int| 0 <= p < q < nv.len() implies lex_lt(
            #[trigger] nv[p],
            #[trigger] nv[q],
        ) by {
            if p < i && q < i {
            } else if p < i && q == i {
            } else if p < i && q > i {
                assert(nv[q] == lv[q - 1]);
            } else if p == i {
                if q > i {
                    assert(nv[q] == lv[q - 1]);
                }
            } else {
                assert(nv[p] == lv[p - 1]);
                assert(nv[q] == lv[q - 1]);
            }
        }
        assert(nv.to_set() =~= lv.to_set().insert(cat@)) by {
            assert forall|s: Seq<char>| nv.to_set().contains(s) implies lv.to_set().insert(
                cat@,
            ).contains(s) by {
                let p = choose|p: int| 0 <= p < nv.len() && nv[p] == s;
                if p < i {
                    assert(lv[p] == s);
                    assert(lv.contains(s));
                } else if p == i {
                } else {
                    assert(lv[p - 1] == s);
                    assert(lv.contains(s));
                }
            }
            assert forall|s: Seq<char>| lv.to_set().insert(cat@).contains(s) implies nv.to_set()
                .contains(s) by {
                if s == cat@ {
                    assert(nv[i as int] == s);
                    assert(nv.contains(s));
                } else {
                    let p = choose|p: int| 0 <= p < lv.len() && lv[p] == s;
                    if p < i {
                        assert(nv[p] == s);
                    } else {
                        assert(nv[p + 1] == s);
                    }
                    assert(nv.contains(s));
                }
            }
        }
    }
}

proof fn lemma_categories_step(rs: Seq<EntryV>, r: int)
    requires
        0 <= r < rs.len(),
    ensures
        categories_of(rs.subrange(0, r + 1)) == categories_of(rs.subrange(0, r)).insert(
            rs[r].category,
        ),
{
    let a = categories_of(rs.subrange(0, r + 1));
    let b = categories_of(rs.subrange(0, r)).insert(rs[r].category);
    assert forall|s: Seq<char>| a.contains(s) implies b.contains(s) by {
        let i = choose|i: int| 0 <= i < r + 1 && (#[trigger] rs.subrange(0, r + 1)[i]).category == s;
        if i < r {
            assert(rs.subrange(0, r)[i].category == s);
        } else {
            assert(rs[r].category == s);
        }
    }
    assert forall|s: Seq<char>| b.contains(s) implies a.contains(s) by {
        if s == rs[r].category {
            assert(rs.subrange(0, r + 1)[r].category == s);
        } else {
            let i = choose|i: int| 0 <= i < r && (#[trigger] rs.subrange(0, r)[i]).category == s;
            assert(rs.subrange(0, r + 1)[i].category == s);
        }
    }
    assert(a =~= b);
}

impl Catalog {
    /// The catalog is well formed when its labels are strictly sorted.
    pub open spec fn wf(&self) -> bool {
        sorted_strict(self@)
    }

    /// Builds the catalog from the full, unpartitioned record set: the
    /// distinct category labels, sorted lexicographically ascending.
    pub fn build(records: &Vec<Entry>) -> (c: Catalog)
        ensures
            c.wf(),
            c@.to_set() == categories_of(entry_views(records@)),
    {
        let ghost evs = entry_views(records@);
        let mut labels: Vec<String> = Vec::new();
        let n = records.len();
        let mut r: usize = 0;
        while r < n
            invariant
                r <= n,
                n == records@.len(),
                evs == entry_views(records@),
                sorted_strict(labels.deep_view()),
                labels.deep_view().to_set() == categories_of(evs.subrange(0, r as int)),
            decreases n - r,
        {
            proof {
                lemma_categories_step(evs, r as int);
                assert(evs[r as int].category == records@[r as int]@.category);
            }
            insert_label(&mut labels, &records[r].category);
            r = r + 1;
        }
        proof {
            assert(evs.subrange(0, n as int) =~= evs);
        }
        Catalog { labels }
    }

    /// Number of distinct categories; also the label-vector width.
    pub fn len(&self) -> (n: usize)
        ensures
            n == self@.len(),
    {
        self.labels.len()
    }

    /// The label at index `i`.
    pub fn label(&self, i: usize) -> (s: &String)
        requires
            i < self@.len(),
        ensures
            s@ == self@[i as int],
    {
        &self.labels[i]
    }
}

/// Encodes a category label as a one-hot vector over the catalog:
/// `1` at the label's index, `0` everywhere else.  A label absent from
/// the catalog is refused.
pub fn normalize_category(text: &str, catalog: &Catalog) -> (r: Result<Vec<Feat>, Error>)
    ensures
        r is Ok <==> catalog@.contains(text@),
        r is Ok ==> rats(r->Ok_0@) == one_hot(catalog@.len() as int, idx_of(catalog@, text@)),
        r is Ok ==> r->Ok_0@.len() == catalog@.len() && feats_wf(r->Ok_0@),
        r is Err ==> r->Err_0 == Error::UnknownCategory,
{
    let ghost cv = catalog@;
    let n = catalog.labels.len();
    let mut j: usize = 0;
    while j < n
        invariant
            j <= n,
            n == cv.len(),
            cv == catalog@,
            forall|k: int| 0 <= k < j ==> cv[k] != text@,
        decreases n - j,
    {
        if str_eq_exec(catalog.labels[j].as_str(), text) {
            proof {
                assert(cv[j as int] == text@);
                assert(cv.contains(text@));
                lemma_idx_of(cv, text@);
                assert(idx_of(cv, text@) == j);
            }
            let mut out: Vec<Feat> = Vec::new();
            let mut i: usize = 0;
            while i < n
                invariant
                    i <= n,
                    out@.len() == i,
                    forall|k: int| 0 <= k < i ==> (#[trigger] out@[k])@ == (if k == j {
                        Rat { num: 1, den: 1 }
                    } else {
                        Rat { num: 0, den: 1 }
                    }),
                    forall|k: int| 0 <= k < i ==> (#[trigger] out@[k]).den == 1,
                decreases n - i,
            {
                if i == j {
                    out.push(Feat { num: 1, den: 1 });
                } else {
                    out.push(Feat { num: 0, den: 1 });
                }
                i = i + 1;
            }
            proof {
                assert(rats(out@) =~= one_hot(cv.len() as int, idx_of(cv, text@)));
            }
            return Ok(out);
        }
        j = j + 1;
    }
    proof {
        if cv.contains(text@) {
            let k = choose|k: int| 0 <= k < cv.len() && cv[k] == text@;
            assert(cv[k] != text@);
        }
    }
    Err(Error::UnknownCategory)
}

/// Law: catalogs built from record sets with the same distinct category
/// labels assign the same indices, whatever the records' encounter
/// order, so shuffling or splitting the records cannot move a label's
/// index.
pub proof fn lemma_catalog_independent_of_order(
    c1: Catalog,
    c2: Catalog,
    rs1: Seq<EntryV>,
    rs2: Seq<EntryV>,
)
    requires
        c1.wf(),
        c2.wf(),
        c1@.to_set() == categories_of(rs1),
        c2@.to_set() == categories_of(rs2),
        categories_of(rs1) == categories_of(rs2),
    ensures
        c1@ == c2@,
{
    lemma_catalog_determined(c1@, c2@);
}

/// Law: the catalog is a pure function of the set of distinct labels.
/// Two well-formed catalogs whose label sets agree are identical, so
/// the index assignment cannot depend on record order, shuffling, or
/// the train/held-out split.
pub proof fn lemma_catalog_determined(a: Seq<Seq<char>>, b: Seq<Seq<char>>)
    requires
        sorted_strict(a),
        sorted_strict(b),
        a.to_set() == b.to_set(),
    ensures
        a == b,
{
    broadcast use vstd::seq_lib::group_to_multiset_ensures;

    let leq = |x: Seq<char>, y: Seq<char>| lex_lt(x, y) || x == y;
    assert(total_ordering(leq)) by {
        assert forall|x: Seq<char>, y: Seq<char>| #[trigger] leq(x, y) && #[trigger] leq(y, x)
            implies x == y by {
            if x != y {
                lemma_lex_lt_trans(x, y, x);
                lemma_lex_lt_irrefl(x);
            }
        }
        assert forall|x: Seq<char>, y: Seq<char>, z: Seq<char>| #[trigger] leq(x, y) && #[trigger] leq(
            y,
            z,
        ) implies leq(x, z) by {
            if x != y && y != z {
                lemma_lex_lt_trans(x, y, z);
            }
        }
        assert forall|x: Seq<char>, y: Seq<char>| true implies #[trigger] leq(x, y) || #[trigger] leq(
            y,
            x,
        ) by {
            lemma_lex_lt_connected(x, y);
        }
    }
    assert(a.no_duplicates()) by {
        assert forall|i: int, j: int|
            0 <= i < a.len() && 0 <= j < a.len() && i != j implies a[i] != a[j] by {
            if a[i] == a[j] {
                if i < j {
                    lemma_lex_lt_irrefl(a[i]);
                } else {
                    lemma_lex_lt_irrefl(a[i]);
                }
            }
        }
    }
    assert(b.no_duplicates()) by {
        assert forall|i: int, j: int|
            0 <= i < b.len() && 0 <= j < b.len() && i != j implies b[i] != b[j] by {
            if b[i] == b[j] {
                lemma_lex_lt_irrefl(b[i]);
            }
        }
    }
    a.lemma_multiset_has_no_duplicates();
    b.lemma_multiset_has_no_duplicates();
    assert(a.to_multiset() =~= b.to_multiset()) by {
        assert forall|x: Seq<char>| true implies a.to_multiset().count(x) == b.to_multiset().count(
            x,
        ) by {
            if a.contains(x) {
                assert(a.to_set().contains(x));
                assert(b.to_set().contains(x));
                assert(b.contains(x));
            } else if b.contains(x) {
                assert(b.to_set().contains(x));
                assert(a.to_set().contains(x));
                assert(a.contains(x));
            } else {
                assert(a.to_multiset().count(x) == 0);
                assert(b.to_multiset().count(x) == 0);
            }
        }
    }
    assert(sorted_by(a, leq)) by {
        assert forall|i: int, j: int| 0 <= i < j < a.len() implies #[trigger] leq(a[i], a[j]) by {
            assert(lex_lt(a[i], a[j]));
        }
    }
    assert(sorted_by(b, leq)) by {
        assert forall|i: int, j: int| 0 <= i < j < b.len() implies #[trigger] leq(b[i], b[j]) by {
            assert(lex_lt(b[i], b[j]));
        }
    }
    lemma_sorted_unique(a, b, leq);
}

} // verus!
