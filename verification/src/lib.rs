//! Reading and editing the metadata of an Ogg-Opus audio container:
//! free-form key/value comment tags, and cover pictures stored as
//! base64-wrapped binary blocks under the `metadata_block_picture` key.
//!
//! A [`Tag`] holds a vendor string and a map from lowercased keys to the
//! ordered values stored under them. It is decoded from and encoded to
//! the binary comment-header packet of the container.

pub mod container;
pub mod header;
pub mod picture;
pub mod text;
pub mod wire;

use vstd::prelude::*;

use crate::header::HeaderParse;
use crate::header::Pair;
use crate::header::entry_bytes;
use crate::header::error_reports;
use crate::header::header_bytes;
use crate::header::header_fits;
use crate::header::encode_pairs;
use crate::header::pair_fits;
use crate::header::parse_comment_header;
use crate::header::parse_header;
use crate::header::pairs_view;
use crate::header::lemma_encode_pairs_concat;
use crate::header::magic;
use crate::wire::le32_bytes;
use crate::wire::push_le32;
use crate::picture::Picture;
use crate::picture::PictureError;
use crate::picture::PictureModel;
use crate::picture::PictureType;
use crate::picture::base64_of;
use crate::picture::decoded_pic;
use crate::picture::encode_picture_outcome;
use crate::picture::picture_bytes;
use crate::picture::zero_geometry;
use crate::text::ascii_lowercase;
use vstd::utf8::encode_utf8;
use vstd::string::StrSliceExecFns;
use crate::text::lemma_lower_chars_idempotent;
use crate::text::lower_chars;

verus! {

/// Everything that can go wrong while reading or writing container
/// metadata. Each failure is a distinct kind, so callers can branch
/// without parsing messages.
#[derive(Debug)]
pub enum Error {
    /// The container is not an Opus stream: a header packet lacks its magic.
    NotOpus,
    /// A packet was expected but the stream ended early.
    MissingPacket,
    /// The container's framing could not be read, or a rewritten
    /// packet could not be written.
    ReadError,
    /// A length field points past the end of the data.
    Truncated,
    /// Bytes that the format mandates to be UTF-8 are not; the offending
    /// bytes are carried.
    InvalidUtf8(Vec<u8>),
    /// A comment entry is not in `key=value` form; the offending entry is
    /// carried.
    MalformedComment(String),
    /// A length does not fit the 32-bit length prefixes of the format.
    TooBig,
    /// Encoding or decoding a picture failed; see [`picture::PictureError`].
    Picture(picture::PictureError),
}

/// One comment entry: a lowercased key and the values stored under it,
/// oldest first.
type Entry = (Seq<char>, Seq<Seq<char>>);

/// The first index holding key `k`, or -1.
pub open spec fn find_key(es: Seq<Entry>, k: Seq<char>) -> int
    decreases es.len(),
{
    if es.len() == 0 {
        -1
    } else if es[0].0 == k {
        0
    } else {
        let r = find_key(es.drop_first(), k);
        if r == -1 {
            -1
        } else {
            r + 1
        }
    }
}

/// What [`find_key`] returns: the first matching index if any.
pub proof fn lemma_find_key(es: Seq<Entry>, k: Seq<char>)
    ensures
        find_key(es, k) == -1 ==> forall|j: int| 0 <= j < es.len() ==> (#[trigger] es[j]).0 != k,
        find_key(es, k) != -1 ==> 0 <= find_key(es, k) < es.len() && es[find_key(es, k)].0 == k
            && forall|j: int| 0 <= j < find_key(es, k) ==> (#[trigger] es[j]).0 != k,
    decreases es.len(),
{
    if es.len() != 0 && es[0].0 != k {
        let d = es.drop_first();
        lemma_find_key(d, k);
        let r = find_key(d, k);
        if r == -1 {
            assert forall|j: int| 0 <= j < es.len() implies (#[trigger] es[j]).0 != k by {
                if j > 0 {
                    assert(es[j] == d[j - 1]);
                }
            }
        } else {
            assert(es[r + 1] == d[r]);
            assert forall|j: int| 0 <= j < r + 1 implies (#[trigger] es[j]).0 != k by {
                if j > 0 {
                    assert(es[j] == d[j - 1]);
                }
            }
        }
    }
}

/// Appends values under a key: to the entry already holding the key, or
/// as a new entry at the end. An empty value list changes nothing.
pub open spec fn add_values(es: Seq<Entry>, k: Seq<char>, vs: Seq<Seq<char>>) -> Seq<Entry> {
    if vs.len() == 0 {
        es
    } else {
        let i = find_key(es, k);
        if i == -1 {
            es.push((k, vs))
        } else {
            es.update(i, (k, es[i].1 + vs))
        }
    }
}

/// Appends a single value under a key.
pub open spec fn add_value(es: Seq<Entry>, k: Seq<char>, v: Seq<char>) -> Seq<Entry> {
    add_values(es, k, seq![v])
}

/// The values stored under key `k`, if the key is present.
pub open spec fn get_values(es: Seq<Entry>, k: Seq<char>) -> Option<Seq<Seq<char>>> {
    let i = find_key(es, k);
    if i == -1 {
        Option::None
    } else {
        Option::Some(es[i].1)
    }
}

/// The entry list built by inserting raw pairs in order, lowercasing
/// each key.
pub open spec fn build_entries(ps: Seq<(Seq<char>, Seq<char>)>) -> Seq<Entry>
    decreases ps.len(),
{
    if ps.len() == 0 {
        Seq::empty()
    } else {
        add_value(build_entries(ps.drop_last()), lower_chars(ps.last().0), ps.last().1)
    }
}

/// The invariant of the comment map: keys are distinct, already
/// lowercased, and never map to an empty value list.
pub open spec fn entries_wf(es: Seq<Entry>) -> bool {
    &&& forall|i: int, j: int|
        #![trigger es[i], es[j]]
        0 <= i < j < es.len() ==> es[i].0 != es[j].0
    &&& forall|i: int| 0 <= i < es.len() ==> lower_chars((#[trigger] es[i]).0) == es[i].0
    &&& forall|i: int| 0 <= i < es.len() ==> (#[trigger] es[i]).1.len() > 0
}

/// [`add_values`] keeps the invariant when the key is already lowercase.
pub proof fn lemma_add_values_wf(es: Seq<Entry>, k: Seq<char>, vs: Seq<Seq<char>>)
    requires
        entries_wf(es),
        lower_chars(k) == k,
    ensures
        entries_wf(add_values(es, k, vs)),
{
    lemma_find_key(es, k);
}

/// Removing an entry keeps the invariant.
pub proof fn lemma_remove_wf(es: Seq<Entry>, i: int)
    requires
        entries_wf(es),
        0 <= i < es.len(),
    ensures
        entries_wf(es.remove(i)),
{
    let r = es.remove(i);
    assert forall|a: int, b: int|
        #![trigger r[a], r[b]]
        0 <= a < b < r.len() implies r[a].0 != r[b].0 by {
        let a0 = if a < i { a } else { a + 1 };
        let b0 = if b < i { b } else { b + 1 };
        assert(r[a] == es[a0]);
        assert(r[b] == es[b0]);
    }
    assert forall|a: int| 0 <= a < r.len() implies lower_chars((#[trigger] r[a]).0) == r[a].0
        && r[a].1.len() > 0 by {
        let a0 = if a < i { a } else { a + 1 };
        assert(r[a] == es[a0]);
    }
}

/// The view of one stored entry.
pub open spec fn entry_view(e: (String, Vec<String>)) -> Entry {
    (e.0@, e.1@.map_values(|v: String| v@))
}

/// Stores Opus comments: a vendor string and the comment map.
#[derive(Debug)]
pub struct Tag {
    vendor: String,
    comments: Vec<(String, Vec<String>)>,
}

impl Tag {
    /// The abstract comment map: a sequence of entries, in the order the
    /// keys were first added.
    pub closed spec fn entries(self) -> Seq<Entry> {
        self.comments@.map_values(|e: (String, Vec<String>)| entry_view(e))
    }

    /// The vendor string's characters.
    pub closed spec fn vendor_chars(self) -> Seq<char> {
        self.vendor@
    }

    /// The invariant every `Tag` satisfies; see [`entries_wf`].
    pub open spec fn wf(self) -> bool {
        entries_wf(self.entries())
    }

    /// Create a new tag from a vendor string and a list of comments.
    /// Keys are lowercased; values of a repeated key accumulate in the
    /// order given.
    #[verifier::loop_isolation(false)]
    pub fn new(vendor: String, comments: Vec<(String, String)>) -> (r: Tag)
        ensures
            r.wf(),
            r.vendor_chars() == vendor@,
            r.entries() == build_entries(
                comments@.map_values(|p: (String, String)| (p.0@, p.1@)),
            ),
    {
        let ghost pv = comments@.map_values(|p: (String, String)| (p.0@, p.1@));
        let mut t = Tag { vendor, comments: Vec::new() };
        proof {
            assert(t.entries() =~= Seq::<Entry>::empty());
        }
        let n = comments.len();
        let mut i: usize = 0;
        while i < n
            invariant
                n == comments.len(),
                i <= n,
                pv == comments@.map_values(|p: (String, String)| (p.0@, p.1@)),
                t.wf(),
                t.vendor@ == vendor@,
                t.entries() == build_entries(pv.take(i as int)),
            decreases n - i,
        {
            let key = comments[i].0.clone();
            let value = comments[i].1.clone();
            t.add_one(key, value);
            proof {
                assert(pv.take(i as int + 1).drop_last() =~= pv.take(i as int));
                assert(pv.take(i as int + 1).last() == pv[i as int]);
            }
            i = i + 1;
        }
        proof {
            assert(pv.take(n as int) =~= pv);
        }
        t
    }

    /// Add one entry. The key is lowercased; the value is appended after
    /// any values already stored under the key.
    #[verifier::loop_isolation(false)]
    pub fn add_one(&mut self, tag: String, value: String)
        requires
            old(self).wf(),
        ensures
            final(self).wf(),
            final(self).vendor_chars() == old(self).vendor_chars(),
            final(self).entries() == add_value(old(self).entries(), lower_chars(tag@), value@),
    {
        let lk = ascii_lowercase(tag.as_str());
        proof {
            lemma_lower_chars_idempotent(tag@);
            lemma_find_key(self.entries(), lk@);
            lemma_add_values_wf(self.entries(), lk@, seq![value@]);
        }
        let n = self.comments.len();
        let mut i: usize = 0;
        while i < n
            invariant
                n == self.comments.len(),
                i <= n,
                *self == *old(self),
                forall|j: int| 0 <= j < i ==> (#[trigger] self.entries()[j]).0 != lk@,
            decreases n - i,
        {
            proof {
                assert(self.entries()[i as int] == entry_view(self.comments@[i as int]));
            }
            if self.comments[i].0 == lk {
                let ghost es = self.entries();
                proof {
                    assert(es[i as int].0 == lk@);
                    lemma_find_key(es, lk@);
                    assert(find_key(es, lk@) == i as int);
                }
                let e = vstd::std_specs::vec::vec_index_mut(&mut self.comments, i);
                e.1.push(value);
                proof {
                    assert(self.entries() =~~= add_value(es, lk@, value@));
                }
                return ;
            }
            i = i + 1;
        }
        proof {
            lemma_find_key(self.entries(), lk@);
            assert(find_key(self.entries(), lk@) == -1);
        }
        let ghost es = self.entries();
        self.comments.push((lk, vec![value]));
        proof {
            assert(self.entries() =~~= add_value(es, lk@, value@));
        }
    }

    /// Add multiple entries under one key, keeping any values already
    /// stored under it. An empty list changes nothing: a key is never
    /// present with an empty value list.
    #[verifier::loop_isolation(false)]
    pub fn add_many(&mut self, tag: String, values: Vec<String>)
        requires
            old(self).wf(),
        ensures
            final(self).wf(),
            final(self).vendor_chars() == old(self).vendor_chars(),
            final(self).entries() == add_values(
                old(self).entries(),
                lower_chars(tag@),
                values@.map_values(|v: String| v@),
            ),
    {
        let ghost vs = values@.map_values(|v: String| v@);
        if values.is_empty() {
            return ;
        }
        let lk = ascii_lowercase(tag.as_str());
        proof {
            lemma_lower_chars_idempotent(tag@);
            lemma_find_key(self.entries(), lk@);
            lemma_add_values_wf(self.entries(), lk@, vs);
        }
        let mut values = values;
        let n = self.comments.len();
        let mut i: usize = 0;
        while i < n
            invariant
                n == self.comments.len(),
                i <= n,
                *self == *old(self),
                values@.map_values(|v: String| v@) == vs,
                forall|j: int| 0 <= j < i ==> (#[trigger] self.entries()[j]).0 != lk@,
            decreases n - i,
        {
            proof {
                assert(self.entries()[i as int] == entry_view(self.comments@[i as int]));
            }
            if self.comments[i].0 == lk {
                let ghost es = self.entries();
                proof {
                    assert(es[i as int].0 == lk@);
                    lemma_find_key(es, lk@);
                    assert(find_key(es, lk@) == i as int);
                }
                let e = vstd::std_specs::vec::vec_index_mut(&mut self.comments, i);
                e.1.append(&mut values);
                proof {
                    assert((e.1@.map_values(|v: String| v@)) =~~= es[i as int].1 + vs);
                    assert(self.entries() =~~= add_values(es, lk@, vs));
                }
                return ;
            }
            i = i + 1;
        }
        proof {
            lemma_find_key(self.entries(), lk@);
            assert(find_key(self.entries(), lk@) == -1);
        }
        let ghost es = self.entries();
        self.comments.push((lk, values));
        proof {
            assert(self.entries() =~~= add_values(es, lk@, vs));
        }
    }

    /// Get all values stored under a key, or `None` if the key is absent.
    /// The lookup is case-insensitive.
    #[verifier::loop_isolation(false)]
    pub fn get(&self, tag: String) -> (r: Option<&Vec<String>>)
        ensures
            match r {
                Option::Some(v) => get_values(self.entries(), lower_chars(tag@)) == Option::Some(
                    v@.map_values(|s: String| s@),
                ),
                Option::None => get_values(self.entries(), lower_chars(tag@)) is None,
            },
    {
        let lk = ascii_lowercase(tag.as_str());
        let n = self.comments.len();
        let mut i: usize = 0;
        while i < n
            invariant
                n == self.comments.len(),
                i <= n,
                forall|j: int| 0 <= j < i ==> (#[trigger] self.entries()[j]).0 != lk@,
            decreases n - i,
        {
            proof {
                assert(self.entries()[i as int] == entry_view(self.comments@[i as int]));
            }
            if self.comments[i].0 == lk {
                proof {
                    lemma_find_key(self.entries(), lk@);
                    assert(find_key(self.entries(), lk@) == i as int);
                }
                let e = &self.comments[i];
                proof {
                    assert(e.1@.map_values(|s: String| s@) == self.entries()[i as int].1);
                }
                return Option::Some(&e.1);
            }
            i = i + 1;
        }
        proof {
            lemma_find_key(self.entries(), lk@);
        }
        Option::None
    }

    /// Remove a key and all its values, returning the removed values if
    /// the key was present. The lookup is case-insensitive.
    #[verifier::loop_isolation(false)]
    pub fn remove_entries(&mut self, tag: String) -> (r: Option<Vec<String>>)
        requires
            old(self).wf(),
        ensures
            final(self).wf(),
            final(self).vendor_chars() == old(self).vendor_chars(),
            match r {
                Option::Some(v) => {
                    let i = find_key(old(self).entries(), lower_chars(tag@));
                    &&& get_values(old(self).entries(), lower_chars(tag@)) == Option::Some(
                        v@.map_values(|s: String| s@),
                    )
                    &&& final(self).entries() == old(self).entries().remove(i)
                },
                Option::None => {
                    &&& get_values(old(self).entries(), lower_chars(tag@)) is None
                    &&& final(self).entries() == old(self).entries()
                },
            },
    {
        let lk = ascii_lowercase(tag.as_str());
        let n = self.comments.len();
        let mut i: usize = 0;
        while i < n
            invariant
                n == self.comments.len(),
                i <= n,
                *self == *old(self),
                forall|j: int| 0 <= j < i ==> (#[trigger] self.entries()[j]).0 != lk@,
            decreases n - i,
        {
            proof {
                assert(self.entries()[i as int] == entry_view(self.comments@[i as int]));
            }
            if self.comments[i].0 == lk {
                let ghost es = self.entries();
                proof {
                    assert(es[i as int].0 == lk@);
                    lemma_find_key(es, lk@);
                    assert(find_key(es, lk@) == i as int);
                }
                let e = self.comments.remove(i);
                proof {
                    assert(self.entries() =~~= es.remove(i as int));
                    lemma_remove_wf(es, i as int);
                    assert(e.1@.map_values(|s: String| s@) == es[i as int].1);
                }
                return Option::Some(e.1);
            }
            i = i + 1;
        }
        proof {
            lemma_find_key(self.entries(), lk@);
        }
        Option::None
    }

    /// Gets the vendor string.
    pub fn get_vendor(&self) -> (r: &str)
        ensures
            r@ == self.vendor_chars(),
    {
        self.vendor.as_str()
    }

    /// Sets the vendor string.
    pub fn set_vendor(&mut self, new_vendor: String)
        ensures
            final(self).vendor_chars() == new_vendor@,
            final(self).entries() == old(self).entries(),
            old(self).wf() ==> final(self).wf(),
    {
        self.vendor = new_vendor;
    }
}

/// The raw pairs contributed by one entry: its key with each value.
pub open spec fn values_pairs(e: Entry) -> Seq<Pair> {
    e.1.map_values(|v: Seq<char>| (e.0, v))
}

/// The raw pairs of a whole entry list, in storage order.
pub open spec fn flat_pairs(es: Seq<Entry>) -> Seq<Pair>
    decreases es.len(),
{
    if es.len() == 0 {
        Seq::empty()
    } else {
        values_pairs(es[0]) + flat_pairs(es.drop_first())
    }
}

/// Flattening a concatenation flattens each part in turn.
pub proof fn lemma_flat_pairs_concat(a: Seq<Entry>, b: Seq<Entry>)
    ensures
        flat_pairs(a + b) == flat_pairs(a) + flat_pairs(b),
    decreases a.len(),
{
    if a.len() == 0 {
        assert(a + b =~= b);
        assert(flat_pairs(a) + flat_pairs(b) =~= flat_pairs(b));
    } else {
        lemma_flat_pairs_concat(a.drop_first(), b);
        assert((a + b).drop_first() =~= a.drop_first() + b);
        assert((a + b)[0] == a[0]);
        assert(flat_pairs(a + b) =~= flat_pairs(a) + flat_pairs(b));
    }
}

/// Flattening one entry yields its value pairs.
pub proof fn lemma_flat_pairs_singleton(e: Entry)
    ensures
        flat_pairs(seq![e]) == values_pairs(e),
{
    assert(seq![e].drop_first() =~= Seq::<Entry>::empty());
    assert(flat_pairs(Seq::<Entry>::empty()) =~= Seq::<Pair>::empty());
    assert(flat_pairs(seq![e]) =~= values_pairs(e));
}

/// Splits the flattened pairs of `es` around entry `i`, value `j`:
/// that pair sits at index `flat_pairs(es.take(i)).len() + j`.
pub proof fn lemma_flat_pairs_middle(es: Seq<Entry>, i: int, j: int)
    requires
        0 <= i < es.len(),
        0 <= j < es[i].1.len(),
    ensures
        0 <= flat_pairs(es.take(i)).len() + j < flat_pairs(es).len(),
        flat_pairs(es)[flat_pairs(es.take(i)).len() + j] == (es[i].0, es[i].1[j]),
{
    assert(es =~= es.take(i) + seq![es[i]] + es.skip(i + 1));
    lemma_flat_pairs_concat(es.take(i) + seq![es[i]], es.skip(i + 1));
    lemma_flat_pairs_concat(es.take(i), seq![es[i]]);
    lemma_flat_pairs_singleton(es[i]);
    assert(values_pairs(es[i])[j] == (es[i].0, es[i].1[j]));
}

/// Appending one key's values, one pair at a time, onto entries that do
/// not hold the key yet: the first value creates the entry at the end,
/// later values append to it.
proof fn lemma_build_append_values(base: Seq<Pair>, bs: Seq<Entry>, e: Entry, m: int)
    requires
        1 <= m <= e.1.len(),
        build_entries(base) == bs,
        forall|x: int| 0 <= x < bs.len() ==> (#[trigger] bs[x]).0 != e.0,
        lower_chars(e.0) == e.0,
    ensures
        build_entries(base + values_pairs(e).take(m)) == bs.push((e.0, e.1.take(m))),
    decreases m,
{
    let vp = values_pairs(e);
    lemma_lower_chars_idempotent(e.0);
    if m == 1 {
        let ps = base + vp.take(1);
        assert(ps.drop_last() =~= base);
        assert(vp[0] == (e.0, e.1[0]));
        assert(ps.last() == (e.0, e.1[0]));
        lemma_find_key(bs, e.0);
        assert(find_key(bs, e.0) == -1) by {
            if find_key(bs, e.0) != -1 {
                assert(bs[find_key(bs, e.0)].0 == e.0);
            }
        }
        assert(build_entries(ps) =~~= bs.push((e.0, e.1.take(1))));
    } else {
        lemma_build_append_values(base, bs, e, m - 1);
        let ps = base + vp.take(m);
        assert(ps.drop_last() =~= base + vp.take(m - 1));
        assert(vp[m - 1] == (e.0, e.1[m - 1]));
        assert(ps.last() == (e.0, e.1[m - 1]));
        let prev = bs.push((e.0, e.1.take(m - 1)));
        lemma_find_key(prev, e.0);
        assert(find_key(prev, e.0) != -1) by {
            if find_key(prev, e.0) == -1 {
                assert(prev[bs.len() as int].0 == e.0);
            }
        }
        assert(find_key(prev, e.0) == bs.len() as int) by {
            if find_key(prev, e.0) < bs.len() as int {
                assert(bs[find_key(prev, e.0)].0 == e.0);
            }
        }
        assert(e.1.take(m - 1) + seq![e.1[m - 1]] =~= e.1.take(m));
        assert(build_entries(ps) =~~= bs.push((e.0, e.1.take(m))));
    }
}

/// Grouping the flattened pairs of a well-formed entry list rebuilds
/// the list: keys were already lowercase and distinct, and values stay
/// in order.
pub proof fn lemma_build_entries_of_keys(es: Seq<Entry>)
    requires
        entries_wf(es),
    ensures
        build_entries(flat_pairs(es)) == es,
    decreases es.len(),
{
    if es.len() == 0 {
        assert(flat_pairs(es) =~= Seq::<Pair>::empty());
        assert(build_entries(Seq::<Pair>::empty()) =~= es);
    } else {
        let es0 = es.drop_last();
        let e = es.last();
        assert forall|x: int, y: int|
            #![trigger es0[x], es0[y]]
            0 <= x < y < es0.len() implies es0[x].0 != es0[y].0 by {
            assert(es0[x] == es[x]);
            assert(es0[y] == es[y]);
        }
        assert forall|x: int| 0 <= x < es0.len() implies lower_chars((#[trigger] es0[x]).0)
            == es0[x].0 && es0[x].1.len() > 0 by {
            assert(es0[x] == es[x]);
        }
        assert forall|x: int| 0 <= x < es0.len() implies (#[trigger] es0[x]).0 != e.0 by {
            assert(es0[x] == es[x]);
            assert(es[es.len() - 1] == e);
        }
        lemma_build_entries_of_keys(es0);
        assert(es =~= es0 + seq![e]);
        lemma_flat_pairs_concat(es0, seq![e]);
        lemma_flat_pairs_singleton(e);
        let m = e.1.len() as int;
        assert(lower_chars(e.0) == e.0) by {
            assert(es[es.len() - 1] == e);
        }
        lemma_build_append_values(flat_pairs(es0), es0, e, m);
        assert(values_pairs(e).take(m) =~= values_pairs(e));
        assert(e.1.take(m) =~= e.1);
        assert((e.0, e.1) == e);
        assert(build_entries(flat_pairs(es0)) =~= es0);
        assert(build_entries(flat_pairs(es)) =~= es);
    }
}

/// Every flattened pair takes its key from some entry.
pub proof fn lemma_flat_pairs_covers(es: Seq<Entry>)
    ensures
        forall|x: int|
            0 <= x < flat_pairs(es).len() ==> exists|i: int|
                0 <= i < es.len() && (#[trigger] flat_pairs(es)[x]).0 == es[i].0,
    decreases es.len(),
{
    if es.len() > 0 {
        let d = es.drop_first();
        lemma_flat_pairs_covers(d);
        let vp = values_pairs(es[0]);
        assert forall|x: int| 0 <= x < flat_pairs(es).len() implies exists|i: int|
            0 <= i < es.len() && (#[trigger] flat_pairs(es)[x]).0 == es[i].0 by {
            if x < vp.len() {
                assert(flat_pairs(es)[x] == vp[x]);
                assert(vp[x].0 == es[0].0);
            } else {
                let y = x - vp.len();
                assert(flat_pairs(es)[x] == flat_pairs(d)[y]);
                let i0 = choose|i: int| 0 <= i < d.len() && flat_pairs(d)[y].0 == d[i].0;
                assert(d[i0] == es[i0 + 1]);
                assert(flat_pairs(es)[x].0 == es[i0 + 1].0);
            }
        }
    }
}

impl Tag {
    /// Encodes this tag as the comment header packet: magic, vendor,
    /// entry count, then one length-prefixed `key=value` entry per
    /// stored value, keys in storage order and values oldest first.
    /// Fails exactly when the vendor, the entry count or some entry does
    /// not fit a 32-bit length prefix.
    #[verifier::loop_isolation(false)]
    pub fn to_packet_data(&self) -> (r: Result<Vec<u8>, Error>)
        ensures
            match r {
                Ok(out) => header_fits(self.vendor_chars(), flat_pairs(self.entries()))
                    && out@ == header_bytes(self.vendor_chars(), flat_pairs(self.entries())),
                Err(e) => e is TooBig && !header_fits(
                    self.vendor_chars(),
                    flat_pairs(self.entries()),
                ),
            },
    {
        let ghost es = self.entries();
        let ghost flat = flat_pairs(es);
        let vlen = self.vendor.as_str().len();
        if vlen as u64 > u32::MAX as u64 {
            return Err(Error::TooBig);
        }
        let mut ents: Vec<Vec<u8>> = Vec::new();
        let n = self.comments.len();
        let mut i: usize = 0;
        while i < n
            invariant
                i <= n,
                ents@.len() == flat_pairs(es.take(i as int)).len(),
                forall|x: int|
                    0 <= x < ents@.len() ==> (#[trigger] ents@[x])@ == entry_bytes(
                        flat_pairs(es.take(i as int))[x],
                    ) && pair_fits(flat_pairs(es.take(i as int))[x]),
            decreases n - i,
        {
            proof {
                assert(es[i as int] == entry_view(self.comments@[i as int]));
                assert(es.take(i as int + 1) =~= es.take(i as int) + seq![es[i as int]]);
                lemma_flat_pairs_concat(es.take(i as int), seq![es[i as int]]);
                lemma_flat_pairs_singleton(es[i as int]);
            }
            let ghost ff = flat_pairs(es.take(i as int));
            let ghost vv = values_pairs(es[i as int]);
            let m = self.comments[i].1.len();
            proof {
                assert(vv.len() == m);
                assert(flat_pairs(es.take(i as int + 1)) == ff + vv);
            }
            let mut j: usize = 0;
            while j < m
                invariant
                    j <= m,
                    ents@.len() == ff.len() + j,
                    forall|x: int|
                        0 <= x < ents@.len() ==> (#[trigger] ents@[x])@ == entry_bytes(
                            (ff + vv)[x],
                        ) && pair_fits((ff + vv)[x]),
                decreases m - j,
            {
                let key = &self.comments[i].0;
                let value = &self.comments[i].1[j];
                let mut e = key.as_str().as_bytes_vec();
                e.push(61);
                let mut vbv = value.as_str().as_bytes_vec();
                e.append(&mut vbv);
                let ghost p = (key@, value@);
                proof {
                    assert(e@ =~= entry_bytes(p));
                    assert(vv[j as int] == p);
                    assert((ff + vv)[ff.len() + j as int] == p);
                }
                if e.len() as u64 > u32::MAX as u64 {
                    proof {
                        lemma_flat_pairs_middle(es, i as int, j as int);
                        assert(flat[ff.len() + j as int] == p);
                        assert(!pair_fits(p));
                    }
                    return Err(Error::TooBig);
                }
                ents.push(e);
                j = j + 1;
            }
            proof {
                assert(flat_pairs(es.take(i as int + 1)).len() == ents@.len());
            }
            i = i + 1;
        }
        proof {
            assert(es.take(n as int) =~= es);
        }
        if ents.len() as u64 > u32::MAX as u64 {
            return Err(Error::TooBig);
        }
        let count = ents.len();
        let mut out: Vec<u8> = Vec::new();
        out.push(79);
        out.push(112);
        out.push(117);
        out.push(115);
        out.push(84);
        out.push(97);
        out.push(103);
        out.push(115);
        proof {
            assert(out@ =~= magic());
        }
        let mut vb = self.vendor.as_str().as_bytes_vec();
        push_le32(&mut out, vb.len() as u32);
        out.append(&mut vb);
        push_le32(&mut out, count as u32);
        let ghost prefix = out@;
        proof {
            assert(prefix =~= magic() + le32_bytes(encode_utf8(self.vendor@).len() as u32)
                + encode_utf8(self.vendor@) + le32_bytes(flat.len() as u32));
        }
        let mut k: usize = 0;
        while k < count
            invariant
                k <= count,
                out@ == prefix + encode_pairs(flat.take(k as int)),
            decreases count - k,
        {
            let el = ents[k].len();
            push_le32(&mut out, el as u32);
            out.extend_from_slice(ents[k].as_slice());
            proof {
                assert(flat.take(k as int + 1) =~= flat.take(k as int) + seq![flat[k as int]]);
                lemma_encode_pairs_concat(flat.take(k as int), seq![flat[k as int]]);
                crate::header::lemma_encode_pairs_singleton(flat[k as int]);
                assert(out@ =~= prefix + encode_pairs(flat.take(k as int + 1)));
            }
            k = k + 1;
        }
        proof {
            assert(flat.take(count as int) =~= flat);
            assert(out@ =~= header_bytes(self.vendor_chars(), flat));
            assert(encode_utf8(self.vendor_chars()).len() <= u32::MAX);
            assert(flat.len() <= u32::MAX);
            assert forall|x: int| 0 <= x < flat.len() implies pair_fits(#[trigger] flat[x]) by {
                assert((ents@[x])@ == entry_bytes(flat_pairs(es.take(n as int))[x]));
            }
        }
        Ok(out)
    }

    /// Decodes a comment header packet into a tag, grouping the raw
    /// pairs under their lowercased keys as [`Tag::new`] does. Returns
    /// the error that [`parse_header`] names on exactly the inputs it
    /// rejects.
    pub fn from_packet_data(b: &[u8]) -> (r: Result<Tag, Error>)
        ensures
            match r {
                Ok(t) => {
                    &&& t.wf()
                    &&& parse_header(b@) matches HeaderParse::Parsed { vendor, pairs }
                        && t.vendor_chars() == vendor && t.entries() == build_entries(pairs)
                },
                Err(e) => error_reports(e, parse_header(b@)),
            },
    {
        match parse_comment_header(b) {
            Ok((vendor, pairs)) => {
                proof {
                    assert(pairs_view(pairs@) == pairs@.map_values(
                        |p: (String, String)| (p.0@, p.1@),
                    ));
                }
                Ok(Tag::new(vendor, pairs))
            },
            Err(e) => Err(e),
        }
    }
}

impl Default for Tag {
    /// The empty tag: empty vendor, no comments.
    fn default() -> (r: Tag)
        ensures
            r.wf(),
            r.vendor_chars() == Seq::<char>::empty(),
            r.entries() == Seq::<Entry>::empty(),
    {
        let t = Tag { vendor: String::new(), comments: Vec::new() };
        proof {
            assert(t.entries() =~= Seq::<Entry>::empty());
            assert(t.vendor@ =~= Seq::<char>::empty());
        }
        t
    }
}


/// The comment key under which pictures are stored.
pub open spec fn pic_key() -> Seq<char> {
    "metadata_block_picture"@
}

/// The picture key is already lowercase.
pub proof fn lemma_pic_key_lower()
    ensures
        lower_chars(pic_key()) == pic_key(),
{
    reveal_strlit("metadata_block_picture");
    assert(lower_chars(pic_key()) =~= pic_key());
}

/// The stored picture values of an entry list: the values under the
/// picture key, or nothing when the key is absent.
pub open spec fn pic_vals(es: Seq<Entry>) -> Seq<Seq<char>> {
    match get_values(es, pic_key()) {
        Option::Some(vs) => vs,
        Option::None => Seq::empty(),
    }
}

/// The first stored value that decodes to a picture of type `code`;
/// values that do not decode are passed over.
pub open spec fn first_pic(vals: Seq<Seq<char>>, code: u32) -> Option<PictureModel>
    decreases vals.len(),
{
    if vals.len() == 0 {
        Option::None
    } else {
        match decoded_pic(vals[0]) {
            Option::Some(m) => if m.code == code {
                Option::Some(m)
            } else {
                first_pic(vals.drop_first(), code)
            },
            Option::None => first_pic(vals.drop_first(), code),
        }
    }
}

/// The index of the last stored value that decodes to a picture of
/// type `code`, or -1.
pub open spec fn last_match(vals: Seq<Seq<char>>, code: u32) -> int
    decreases vals.len(),
{
    if vals.len() == 0 {
        -1
    } else {
        match decoded_pic(vals.last()) {
            Option::Some(m) => if m.code == code {
                vals.len() - 1
            } else {
                last_match(vals.drop_last(), code)
            },
            Option::None => last_match(vals.drop_last(), code),
        }
    }
}

/// All decodable stored pictures, in storage order.
pub open spec fn all_pics(vals: Seq<Seq<char>>) -> Seq<PictureModel>
    decreases vals.len(),
{
    if vals.len() == 0 {
        Seq::empty()
    } else {
        match decoded_pic(vals[0]) {
            Option::Some(m) => seq![m] + all_pics(vals.drop_first()),
            Option::None => all_pics(vals.drop_first()),
        }
    }
}

impl Tag {
    /// The stored picture values of this tag.
    pub open spec fn pic_values(self) -> Seq<Seq<char>> {
        pic_vals(self.entries())
    }

    /// Gets the first stored picture with the given type, or `None` if
    /// no stored value decodes to one. Undecodable values are passed
    /// over, never an error.
    #[verifier::loop_isolation(false)]
    pub fn get_picture_type(&self, picture_type: PictureType) -> (r: Option<Picture>)
        ensures
            match r {
                Option::Some(p) => first_pic(self.pic_values(), picture_type.spec_code())
                    == Option::Some(p.model()),
                Option::None => first_pic(self.pic_values(), picture_type.spec_code()) is None,
            },
    {
        proof {
            lemma_pic_key_lower();
        }
        let ghost pv = self.pic_values();
        let ghost code = picture_type.spec_code();
        let vals: &Vec<String> = match self.get("metadata_block_picture".to_owned()) {
            Option::Some(v) => v,
            Option::None => {
                proof {
                    assert(pv =~= Seq::<Seq<char>>::empty());
                }
                return Option::None;
            },
        };
        proof {
            assert(pv == vals@.map_values(|s: String| s@));
        }
        let n = vals.len();
        let mut i: usize = 0;
        proof {
            assert(pv.skip(0) =~= pv);
        }
        while i < n
            invariant
                i <= n,
                first_pic(pv, code) == first_pic(pv.skip(i as int), code),
            decreases n - i,
        {
            proof {
                assert(pv.skip(i as int)[0] == pv[i as int]);
                assert(pv[i as int] == vals@[i as int]@);
                assert(pv.skip(i as int).drop_first() =~= pv.skip(i as int + 1));
            }
            match Picture::from_base64(vals[i].as_str()) {
                Ok(p) => {
                    if p.picture_type.code() == picture_type.code() {
                        proof {
                            assert(p.model().code == code);
                        }
                        return Option::Some(p);
                    }
                },
                Err(_) => {},
            }
            i = i + 1;
        }
        proof {
            assert(pv.skip(n as int) =~= Seq::<Seq<char>>::empty());
        }
        Option::None
    }

    /// Returns every stored picture that decodes, in storage order,
    /// passing over values that do not decode.
    #[verifier::loop_isolation(false)]
    pub fn pictures(&self) -> (r: Vec<Picture>)
        ensures
            r@.map_values(|p: Picture| p.model()) == all_pics(self.pic_values()),
    {
        proof {
            lemma_pic_key_lower();
        }
        let ghost pv = self.pic_values();
        let mut out: Vec<Picture> = Vec::new();
        let vals: &Vec<String> = match self.get("metadata_block_picture".to_owned()) {
            Option::Some(v) => v,
            Option::None => {
                proof {
                    assert(pv =~= Seq::<Seq<char>>::empty());
                    assert(out@.map_values(|p: Picture| p.model()) =~= all_pics(pv));
                }
                return out;
            },
        };
        proof {
            assert(pv == vals@.map_values(|s: String| s@));
        }
        let n = vals.len();
        let mut i: usize = 0;
        proof {
            assert(pv.skip(0) =~= pv);
            assert(out@.map_values(|p: Picture| p.model()) + all_pics(pv) =~= all_pics(pv));
        }
        while i < n
            invariant
                i <= n,
                all_pics(pv) == out@.map_values(|p: Picture| p.model()) + all_pics(
                    pv.skip(i as int),
                ),
            decreases n - i,
        {
            proof {
                assert(pv.skip(i as int)[0] == pv[i as int]);
                assert(pv[i as int] == vals@[i as int]@);
                assert(pv.skip(i as int).drop_first() =~= pv.skip(i as int + 1));
            }
            let ghost acc0 = out@.map_values(|p: Picture| p.model());
            match Picture::from_base64(vals[i].as_str()) {
                Ok(p) => {
                    out.push(p);
                    proof {
                        assert(out@.map_values(|q: Picture| q.model()) =~= acc0.push(p.model()));
                        assert(acc0.push(p.model()) + all_pics(pv.skip(i as int + 1)) =~= acc0 + (
                        seq![p.model()] + all_pics(pv.skip(i as int + 1))));
                    }
                },
                Err(_) => {},
            }
            i = i + 1;
        }
        proof {
            assert(pv.skip(n as int) =~= Seq::<Seq<char>>::empty());
            assert(all_pics(Seq::<Seq<char>>::empty()) =~= Seq::<PictureModel>::empty());
            assert(all_pics(pv) =~= out@.map_values(|p: Picture| p.model()));
        }
        out
    }
}

/// The entry list after removing stored picture value `i`: the whole
/// key leaves when it was the last value, else only the value.
pub open spec fn remove_pic_value(es: Seq<Entry>, i: int) -> Seq<Entry> {
    let k = find_key(es, pic_key());
    if es[k].1.len() <= 1 {
        es.remove(k)
    } else {
        es.update(k, (es[k].0, es[k].1.remove(i)))
    }
}

/// The entry list after removing the last stored picture of type
/// `code`, if one is stored.
pub open spec fn after_remove_pic(es: Seq<Entry>, code: u32) -> Seq<Entry> {
    let i = last_match(pic_vals(es), code);
    if i == -1 {
        es
    } else {
        remove_pic_value(es, i)
    }
}

/// Replacing one entry's values keeps the invariant as long as none
/// are left empty.
pub proof fn lemma_update_values_wf(es: Seq<Entry>, k: int, vs: Seq<Seq<char>>)
    requires
        entries_wf(es),
        0 <= k < es.len(),
        vs.len() > 0,
    ensures
        entries_wf(es.update(k, (es[k].0, vs))),
{
    let u = es.update(k, (es[k].0, vs));
    assert forall|a: int, b: int|
        #![trigger u[a], u[b]]
        0 <= a < b < u.len() implies u[a].0 != u[b].0 by {
        assert(u[a].0 == es[a].0);
        assert(u[b].0 == es[b].0);
    }
    assert forall|a: int| 0 <= a < u.len() implies lower_chars((#[trigger] u[a]).0) == u[a].0
        && u[a].1.len() > 0 by {
        assert(u[a].0 == es[a].0);
    }
}

/// Replacing one entry's values does not move any key.
pub proof fn lemma_find_key_update(es: Seq<Entry>, k: int, vs: Seq<Seq<char>>, key: Seq<char>)
    requires
        0 <= k < es.len(),
    ensures
        find_key(es.update(k, (es[k].0, vs)), key) == find_key(es, key),
{
    let u = es.update(k, (es[k].0, vs));
    lemma_find_key(es, key);
    lemma_find_key(u, key);
    let f1 = find_key(es, key);
    let f2 = find_key(u, key);
    assert forall|j: int| 0 <= j < es.len() implies (#[trigger] u[j]).0 == es[j].0 by {}
    if f1 == -1 {
        if f2 != -1 {
            assert(es[f2].0 == key);
        }
    } else {
        if f2 == -1 {
            assert(u[f1].0 == key);
        } else if f2 < f1 {
            assert(es[f2].0 == key);
        } else if f1 < f2 {
            assert(u[f1].0 == key);
        }
    }
}

impl Tag {
    /// Removes the last stored picture of the given type and returns
    /// it. When no stored value decodes to a picture of that type,
    /// nothing changes and `None` comes back; the call never fails.
    #[verifier::loop_isolation(false)]
    pub fn remove_picture_type(&mut self, picture_type: PictureType) -> (r: Result<
        Option<Picture>,
        Error,
    >)
        requires
            old(self).wf(),
        ensures
            final(self).wf(),
            final(self).vendor_chars() == old(self).vendor_chars(),
            match r {
                Ok(opt) => match opt {
                    Option::None => last_match(old(self).pic_values(), picture_type.spec_code())
                        == -1 && *final(self) == *old(self),
                    Option::Some(p) => {
                        let i = last_match(old(self).pic_values(), picture_type.spec_code());
                        &&& 0 <= i < old(self).pic_values().len()
                        &&& decoded_pic(old(self).pic_values()[i]) == Option::Some(p.model())
                        &&& p.model().code == picture_type.spec_code()
                        &&& final(self).entries() == remove_pic_value(old(self).entries(), i)
                    },
                },
                Err(_) => false,
            },
    {
        proof {
            lemma_pic_key_lower();
        }
        let ghost es = self.entries();
        let ghost pv = self.pic_values();
        let ghost code = picture_type.spec_code();
        let pk = "metadata_block_picture".to_owned();
        let n = self.comments.len();
        let mut kidx: usize = 0;
        let mut found = false;
        while kidx < n
            invariant
                kidx <= n,
                !found,
                *self == *old(self),
                forall|j: int| 0 <= j < kidx ==> (#[trigger] self.entries()[j]).0 != pk@,
            decreases n - kidx,
        {
            proof {
                assert(self.entries()[kidx as int] == entry_view(self.comments@[kidx as int]));
            }
            if self.comments[kidx].0 == pk {
                found = true;
                break ;
            }
            kidx = kidx + 1;
        }
        if !found {
            proof {
                lemma_find_key(es, pic_key());
                assert(find_key(es, pic_key()) == -1);
                assert(pv =~= Seq::<Seq<char>>::empty());
            }
            return Ok(Option::None);
        }
        proof {
            assert(self.entries()[kidx as int] == entry_view(self.comments@[kidx as int]));
            lemma_find_key(es, pic_key());
            assert(find_key(es, pic_key()) == kidx as int);
            assert(pv == es[kidx as int].1);
            assert(pv == self.comments@[kidx as int].1@.map_values(|v: String| v@));
        }
        let vals: &Vec<String> = &self.comments[kidx].1;
        let m = vals.len();
        let mut j: usize = 0;
        let mut best: Option<Picture> = Option::None;
        let mut bj: usize = 0;
        proof {
            assert(pv.take(0) =~= Seq::<Seq<char>>::empty());
        }
        while j < m
            invariant
                j <= m,
                m == pv.len(),
                match best {
                    Option::None => last_match(pv.take(j as int), code) == -1,
                    Option::Some(p) => {
                        &&& bj < j
                        &&& last_match(pv.take(j as int), code) == bj as int
                        &&& decoded_pic(pv[bj as int]) == Option::Some(p.model())
                        &&& p.model().code == code
                    },
                },
            decreases m - j,
        {
            proof {
                assert(pv.take(j as int + 1).drop_last() =~= pv.take(j as int));
                assert(pv.take(j as int + 1).last() == pv[j as int]);
                assert(pv[j as int] == vals@[j as int]@);
            }
            match Picture::from_base64(vals[j].as_str()) {
                Ok(p) => {
                    if p.picture_type.code() == picture_type.code() {
                        best = Option::Some(p);
                        bj = j;
                    }
                },
                Err(_) => {},
            }
            j = j + 1;
        }
        proof {
            assert(pv.take(m as int) =~= pv);
        }
        match best {
            Option::None => Ok(Option::None),
            Option::Some(p) => {
                let ghost i = bj as int;
                if m == 1 {
                    let _ = self.comments.remove(kidx);
                    proof {
                        assert(self.entries() =~~= es.remove(kidx as int));
                        lemma_remove_wf(es, kidx as int);
                        assert(self.entries() == remove_pic_value(es, i));
                    }
                } else {
                    let e = vstd::std_specs::vec::vec_index_mut(&mut self.comments, kidx);
                    let _ = e.1.remove(bj);
                    proof {
                        assert(e.1@.map_values(|v: String| v@) =~~= pv.remove(i));
                        assert(self.entries() =~~= es.update(
                            kidx as int,
                            (es[kidx as int].0, pv.remove(i)),
                        ));
                        lemma_update_values_wf(es, kidx as int, pv.remove(i));
                        assert(self.entries() == remove_pic_value(es, i));
                    }
                }
                Ok(Option::Some(p))
            },
        }
    }

    /// Add a picture. The last stored picture with the same type, if
    /// any, is removed first; the new picture is then encoded, wrapped
    /// in base64 and appended under the picture key. Fails exactly when
    /// encoding the picture fails; the removal has happened by then.
    pub fn add_picture(&mut self, picture: &Picture) -> (r: Result<(), Error>)
        requires
            old(self).wf(),
        ensures
            final(self).wf(),
            final(self).vendor_chars() == old(self).vendor_chars(),
            ({
                let mid = after_remove_pic(old(self).entries(), picture.model().code);
                match r {
                    Ok(_) => {
                        &&& encode_picture_outcome(picture.model()) == Ok::<_, PictureError>(
                            picture_bytes(picture.model()),
                        )
                        &&& final(self).entries() == add_value(
                            mid,
                            pic_key(),
                            base64_of(picture_bytes(picture.model())),
                        )
                        &&& decoded_pic(base64_of(picture_bytes(picture.model())))
                            == Option::Some(zero_geometry(picture.model()))
                    },
                    Err(e) => {
                        &&& match e {
                            Error::Picture(pe) => encode_picture_outcome(picture.model())
                                == Err::<Seq<u8>, _>(pe),
                            _ => false,
                        }
                        &&& final(self).entries() == mid
                    },
                }
            }),
    {
        proof {
            lemma_pic_key_lower();
        }
        match self.remove_picture_type(picture.picture_type) {
            Ok(_) => {},
            Err(e) => {
                return Err(e);
            },
        }
        let data = match picture.to_base64() {
            Ok(d) => d,
            Err(e) => {
                return Err(e);
            },
        };
        self.add_one("METADATA_BLOCK_PICTURE".to_owned(), data);
        proof {
            lemma_upper_pic_key_lower();
        }
        Ok(())
    }
}

/// Lowercasing the conventional uppercase spelling of the picture key
/// yields the picture key.
proof fn lemma_upper_pic_key_lower()
    ensures
        lower_chars("METADATA_BLOCK_PICTURE"@) == pic_key(),
{
    reveal_strlit("METADATA_BLOCK_PICTURE");
    reveal_strlit("metadata_block_picture");
    assert(lower_chars("METADATA_BLOCK_PICTURE"@) =~= "metadata_block_picture"@);
}

/// Whether a stored value decodes to a picture of type `code`.
pub open spec fn is_match(v: Seq<char>, code: u32) -> bool {
    decoded_pic(v) matches Option::Some(m) && m.code == code
}

/// How many stored values decode to pictures of type `code`.
pub open spec fn count_matches(vals: Seq<Seq<char>>, code: u32) -> int
    decreases vals.len(),
{
    if vals.len() == 0 {
        0
    } else {
        (if is_match(vals[0], code) {
            1int
        } else {
            0int
        }) + count_matches(vals.drop_first(), code)
    }
}

/// How many pictures of a model list have type `code`.
pub open spec fn count_code(ms: Seq<PictureModel>, code: u32) -> int
    decreases ms.len(),
{
    if ms.len() == 0 {
        0
    } else {
        (if ms[0].code == code {
            1int
        } else {
            0int
        }) + count_code(ms.drop_first(), code)
    }
}

/// What [`last_match`] returns: the last matching index if any.
pub proof fn lemma_last_match(vals: Seq<Seq<char>>, code: u32)
    ensures
        last_match(vals, code) == -1 ==> forall|j: int|
            0 <= j < vals.len() ==> !is_match(#[trigger] vals[j], code),
        last_match(vals, code) != -1 ==> 0 <= last_match(vals, code) < vals.len() && is_match(
            vals[last_match(vals, code)],
            code,
        ) && forall|j: int|
            last_match(vals, code) < j < vals.len() ==> !is_match(#[trigger] vals[j], code),
    decreases vals.len(),
{
    if vals.len() != 0 && !is_match(vals.last(), code) {
        let d = vals.drop_last();
        lemma_last_match(d, code);
        let r = last_match(d, code);
        if r == -1 {
            assert forall|j: int| 0 <= j < vals.len() implies !is_match(
                #[trigger] vals[j],
                code,
            ) by {
                if j < vals.len() - 1 {
                    assert(vals[j] == d[j]);
                }
            }
        } else {
            assert(vals[r] == d[r]);
            assert forall|j: int| r < j < vals.len() implies !is_match(#[trigger] vals[j], code) by {
                if j < vals.len() - 1 {
                    assert(vals[j] == d[j]);
                }
            }
        }
    }
}

/// A count of matches is never negative.
pub proof fn lemma_count_nonneg(vals: Seq<Seq<char>>, code: u32)
    ensures
        count_matches(vals, code) >= 0,
    decreases vals.len(),
{
    if vals.len() != 0 {
        lemma_count_nonneg(vals.drop_first(), code);
    }
}

/// The count is zero exactly when no stored value matches.
pub proof fn lemma_count_zero(vals: Seq<Seq<char>>, code: u32)
    ensures
        (count_matches(vals, code) == 0) <==> (forall|j: int|
            0 <= j < vals.len() ==> !is_match(#[trigger] vals[j], code)),
    decreases vals.len(),
{
    if vals.len() != 0 {
        let d = vals.drop_first();
        lemma_count_zero(d, code);
        lemma_count_nonneg(d, code);
        if count_matches(vals, code) == 0 {
            assert forall|j: int| 0 <= j < vals.len() implies !is_match(
                #[trigger] vals[j],
                code,
            ) by {
                if j > 0 {
                    assert(vals[j] == d[j - 1]);
                }
            }
        } else {
            if !is_match(vals[0], code) {
                let j0 = choose|j: int| 0 <= j < d.len() && is_match(d[j], code);
                assert(vals[j0 + 1] == d[j0]);
            }
        }
    }
}

/// Removing a matching value lowers the count by one.
pub proof fn lemma_count_remove(vals: Seq<Seq<char>>, code: u32, i: int)
    requires
        0 <= i < vals.len(),
        is_match(vals[i], code),
    ensures
        count_matches(vals.remove(i), code) == count_matches(vals, code) - 1,
    decreases vals.len(),
{
    if i == 0 {
        assert(vals.remove(0) =~= vals.drop_first());
    } else {
        assert(vals.remove(i).drop_first() =~= vals.drop_first().remove(i - 1));
        assert(vals.drop_first()[i - 1] == vals[i]);
        lemma_count_remove(vals.drop_first(), code, i - 1);
        assert(vals.remove(i)[0] == vals[0]);
    }
}

/// Appending a value adds its match, if it is one, to the count.
pub proof fn lemma_count_push(vals: Seq<Seq<char>>, code: u32, v: Seq<char>)
    ensures
        count_matches(vals.push(v), code) == count_matches(vals, code) + (if is_match(v, code) {
            1int
        } else {
            0int
        }),
    decreases vals.len(),
{
    if vals.len() == 0 {
        assert(vals.push(v)[0] == v);
        assert(vals.push(v).drop_first() =~= Seq::<Seq<char>>::empty());
        assert(count_matches(Seq::<Seq<char>>::empty(), code) == 0);
    } else {
        assert(vals.push(v).drop_first() =~= vals.drop_first().push(v));
        assert(vals.push(v)[0] == vals[0]);
        lemma_count_push(vals.drop_first(), code, v);
    }
}

/// The first matching picture of a list that opens with values none of
/// which match is found past them.
pub proof fn lemma_first_pic_prefix(a: Seq<Seq<char>>, b: Seq<Seq<char>>, code: u32)
    requires
        forall|j: int| 0 <= j < a.len() ==> !is_match(#[trigger] a[j], code),
    ensures
        first_pic(a + b, code) == first_pic(b, code),
    decreases a.len(),
{
    if a.len() == 0 {
        assert(a + b =~= b);
    } else {
        assert((a + b)[0] == a[0]);
        assert((a + b).drop_first() =~= a.drop_first() + b);
        assert forall|j: int| 0 <= j < a.drop_first().len() implies !is_match(
            #[trigger] a.drop_first()[j],
            code,
        ) by {
            assert(a.drop_first()[j] == a[j + 1]);
        }
        lemma_first_pic_prefix(a.drop_first(), b, code);
    }
}

/// A model list carries exactly the matches of the values it was
/// decoded from.
pub proof fn lemma_all_pics_count(vals: Seq<Seq<char>>, code: u32)
    ensures
        count_code(all_pics(vals), code) == count_matches(vals, code),
    decreases vals.len(),
{
    if vals.len() != 0 {
        lemma_all_pics_count(vals.drop_first(), code);
        match decoded_pic(vals[0]) {
            Option::Some(m) => {
                let rest = all_pics(vals.drop_first());
                assert((seq![m] + rest)[0] == m);
                assert((seq![m] + rest).drop_first() =~= rest);
            },
            Option::None => {},
        }
    }
}

/// Adding a stored picture value appends it to the stored values and
/// keeps the store well-formed.
pub proof fn lemma_pic_vals_add(es: Seq<Entry>, v: Seq<char>)
    requires
        entries_wf(es),
    ensures
        pic_vals(add_value(es, pic_key(), v)) == pic_vals(es).push(v),
        entries_wf(add_value(es, pic_key(), v)),
{
    lemma_pic_key_lower();
    lemma_add_values_wf(es, pic_key(), seq![v]);
    let pk = pic_key();
    lemma_find_key(es, pk);
    let i = find_key(es, pk);
    let es1 = add_value(es, pk, v);
    if i == -1 {
        lemma_find_key(es1, pk);
        assert(es1[es.len() as int].0 == pk);
        assert(find_key(es1, pk) != -1);
        if find_key(es1, pk) < es.len() as int {
            assert(es[find_key(es1, pk)].0 == pk);
        }
        assert(find_key(es1, pk) == es.len() as int);
        assert(pic_vals(es) =~= Seq::<Seq<char>>::empty());
        assert(pic_vals(es1) =~= pic_vals(es).push(v));
    } else {
        lemma_find_key_update(es, i, es[i].1 + seq![v], pk);
        assert(pic_vals(es1) =~= pic_vals(es).push(v));
    }
}

/// Removing one stored picture value removes it from the stored values
/// and keeps the store well-formed.
pub proof fn lemma_pic_vals_remove(es: Seq<Entry>, i: int)
    requires
        entries_wf(es),
        find_key(es, pic_key()) != -1,
        0 <= i < pic_vals(es).len(),
        pic_vals(es).len() <= 1 ==> i == 0,
    ensures
        pic_vals(remove_pic_value(es, i)) == pic_vals(es).remove(i),
        entries_wf(remove_pic_value(es, i)),
{
    let pk = pic_key();
    lemma_find_key(es, pk);
    let k = find_key(es, pk);
    assert(pic_vals(es) == es[k].1);
    if es[k].1.len() <= 1 {
        let r = es.remove(k);
        lemma_remove_wf(es, k);
        lemma_find_key(r, pk);
        let f = find_key(r, pk);
        if f != -1 {
            assert(r[f] == if f < k {
                es[f]
            } else {
                es[f + 1]
            });
            assert(false);
        }
        assert(pic_vals(r) =~= es[k].1.remove(0));
    } else {
        lemma_find_key_update(es, k, es[k].1.remove(i), pk);
        lemma_update_values_wf(es, k, es[k].1.remove(i));
        assert(pic_vals(remove_pic_value(es, i)) =~= es[k].1.remove(i));
    }
}

/// Adding a picture of some type and then another of the same type
/// leaves exactly one stored picture of that type: the second. `s1` and
/// `s2` stand for the stored values the two calls of `add_picture`
/// append, and the store starts with at most one stored picture of the
/// type; the first added picture is the one removed by the second call.
pub proof fn lemma_add_picture_replaces(
    es: Seq<Entry>,
    code: u32,
    s1: Seq<char>,
    m1: PictureModel,
    s2: Seq<char>,
    m2: PictureModel,
)
    requires
        entries_wf(es),
        count_matches(pic_vals(es), code) <= 1,
        decoded_pic(s1) == Option::Some(m1),
        m1.code == code,
        decoded_pic(s2) == Option::Some(m2),
        m2.code == code,
    ensures
        ({
            let es1 = add_value(after_remove_pic(es, code), pic_key(), s1);
            let es2 = add_value(after_remove_pic(es1, code), pic_key(), s2);
            &&& first_pic(pic_vals(es2), code) == Option::Some(m2)
            &&& count_matches(pic_vals(es2), code) == 1
            &&& count_code(all_pics(pic_vals(es2)), code) == 1
        }),
{
    lemma_pic_key_lower();
    let pk = pic_key();
    let vals = pic_vals(es);
    lemma_last_match(vals, code);
    let i0 = last_match(vals, code);
    let mid0 = after_remove_pic(es, code);
    if i0 == -1 {
        lemma_count_zero(vals, code);
        assert(count_matches(pic_vals(mid0), code) == 0);
    } else {
        assert(find_key(es, pk) != -1) by {
            if find_key(es, pk) == -1 {
                assert(vals.len() == 0);
            }
        }
        lemma_pic_vals_remove(es, i0);
        lemma_count_remove(vals, code, i0);
        lemma_count_nonneg(vals.remove(i0), code);
        assert(count_matches(pic_vals(mid0), code) == 0);
    }
    let vals0 = pic_vals(mid0);
    lemma_pic_vals_add(mid0, s1);
    let es1 = add_value(mid0, pk, s1);
    let vals1 = vals0.push(s1);
    assert(pic_vals(es1) == vals1);
    lemma_count_push(vals0, code, s1);
    assert(count_matches(vals1, code) == 1);
    assert(vals1.last() == s1);
    assert(last_match(vals1, code) == vals0.len() as int);
    assert(find_key(es1, pk) != -1) by {
        if find_key(es1, pk) == -1 {
            assert(pic_vals(es1).len() == 0);
        }
    }
    assert(vals1.len() <= 1 ==> vals0.len() as int == 0);
    lemma_pic_vals_remove(es1, vals0.len() as int);
    let mid1 = after_remove_pic(es1, code);
    assert(pic_vals(mid1) =~= vals0);
    lemma_pic_vals_add(mid1, s2);
    let es2 = add_value(mid1, pk, s2);
    assert(pic_vals(es2) == vals0.push(s2));
    lemma_count_push(vals0, code, s2);
    assert(count_matches(pic_vals(es2), code) == 1);
    lemma_count_zero(vals0, code);
    lemma_first_pic_prefix(vals0, seq![s2], code);
    assert(vals0 + seq![s2] =~= vals0.push(s2));
    assert(first_pic(seq![s2], code) == Option::Some(m2)) by {
        assert(seq![s2][0] == s2);
    }
    lemma_all_pics_count(vals0.push(s2), code);
}

/// Adding a value under a key makes it visible under every case
/// variant of the key: the lookup normalizes exactly as the insertion
/// did, and the stored values end with the value just added.
pub proof fn lemma_add_one_get(es: Seq<Entry>, key: Seq<char>, value: Seq<char>, key2: Seq<char>)
    requires
        entries_wf(es),
        lower_chars(key2) == lower_chars(key),
    ensures
        ({
            let vs = get_values(add_value(es, lower_chars(key), value), lower_chars(key2));
            &&& vs is Some
            &&& vs->Some_0.len() > 0
            &&& vs->Some_0.last() == value
            &&& vs->Some_0.contains(value)
        }),
{
    let lk = lower_chars(key);
    let es1 = add_value(es, lk, value);
    lemma_find_key(es, lk);
    let i = find_key(es, lk);
    if i == -1 {
        lemma_find_key(es1, lk);
        assert(es1[es.len() as int].0 == lk);
        assert(find_key(es1, lk) != -1);
        if find_key(es1, lk) < es.len() as int {
            assert(es[find_key(es1, lk)].0 == lk);
        }
        assert(find_key(es1, lk) == es.len() as int);
        assert(get_values(es1, lk)->Some_0 == seq![value]);
    } else {
        lemma_find_key_update(es, i, es[i].1 + seq![value], lk);
        assert(es1 == es.update(i, (es[i].0, es[i].1 + seq![value])));
        assert(get_values(es1, lk)->Some_0 == es[i].1 + seq![value]);
        assert((es[i].1 + seq![value]).last() == value);
    }
    assert(get_values(es1, lk)->Some_0.contains(value)) by {
        let vs = get_values(es1, lk)->Some_0;
        assert(vs[vs.len() - 1] == value);
    }
}

/// Encoding a tag and decoding the result yields the tag back: the
/// parse of `header_bytes` returns the same vendor and the flattened
/// pairs, and regrouping those pairs rebuilds the same entries. This
/// holds for every tag whose lengths fit the 32-bit prefixes and whose
/// keys contain no `=`; a key holding `=` would be split there on
/// decode and cannot round-trip.
pub proof fn lemma_tag_round_trip(t: Tag)
    requires
        t.wf(),
        header_fits(t.vendor_chars(), flat_pairs(t.entries())),
        forall|i: int, y: int|
            0 <= i < t.entries().len() && 0 <= y < t.entries()[i].0.len()
                ==> #[trigger] t.entries()[i].0[y] != '=',
    ensures
        parse_header(header_bytes(t.vendor_chars(), flat_pairs(t.entries())))
            == (HeaderParse::Parsed {
            vendor: t.vendor_chars(),
            pairs: flat_pairs(t.entries()),
        }),
        build_entries(flat_pairs(t.entries())) == t.entries(),
{
    let es = t.entries();
    let flat = flat_pairs(es);
    lemma_flat_pairs_covers(es);
    assert forall|x: int, y: int|
        0 <= x < flat.len() && 0 <= y < flat[x].0.len() implies #[trigger] flat[x].0[y]
        != '=' by {
        let i = choose|i: int| 0 <= i < es.len() && flat[x].0 == es[i].0;
        assert(es[i].0[y] != '=');
    }
    crate::header::lemma_parse_header_of_encoded(t.vendor_chars(), flat);
    lemma_build_entries_of_keys(es);
}

} // verus!
