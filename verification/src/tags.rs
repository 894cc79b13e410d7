//! The comma-joined tag-set codec.
//!
//! On the wire a tag collection is one string of comma-separated tags; in
//! memory it is a set of unique tag strings. Decoding splits on `,` and
//! collapses duplicates keeping the first occurrence, so the member order is
//! deterministic; encoding joins the members with `,` in that order.
//! Splitting the empty string yields one empty segment, so the empty string
//! decodes to one empty tag, not to an empty collection: a decoded
//! collection is never empty, and the quirk round-trips exactly.

use vstd::prelude::*;

verus! {

/// The wire string `s` split on `,`: one segment per tag, in order.
pub open spec fn spec_split(s: Seq<char>) -> Seq<Seq<char>>
    decreases s.len(),
{
    if s.len() == 0 {
        seq![Seq::<char>::empty()]
    } else if s[0] == ',' {
        seq![Seq::<char>::empty()] + spec_split(s.drop_first())
    } else {
        let rest = spec_split(s.drop_first());
        seq![seq![s[0]] + rest[0]] + rest.drop_first()
    }
}

/// The segments joined with `,` between each pair.
pub open spec fn spec_join(parts: Seq<Seq<char>>) -> Seq<char>
    decreases parts.len(),
{
    if parts.len() == 0 {
        Seq::<char>::empty()
    } else if parts.len() == 1 {
        parts[0]
    } else {
        parts[0] + seq![','] + spec_join(parts.drop_first())
    }
}

/// The segments with duplicates removed, keeping each first occurrence.
pub open spec fn spec_dedup(parts: Seq<Seq<char>>) -> Seq<Seq<char>>
    decreases parts.len(),
{
    if parts.len() == 0 {
        Seq::<Seq<char>>::empty()
    } else {
        let prefix = spec_dedup(parts.drop_last());
        if prefix.contains(parts.last()) {
            prefix
        } else {
            prefix.push(parts.last())
        }
    }
}

/// The views of a vector of strings.
pub open spec fn views_of(ss: Seq<String>) -> Seq<Seq<char>> {
    ss.map_values(|s: String| s@)
}

/// A well-formed tag member sequence: at least one member, no member
/// repeated, and no member contains the separator.
pub open spec fn tagseq_wf(parts: Seq<Seq<char>>) -> bool {
    &&& parts.len() >= 1
    &&& parts.no_duplicates()
    &&& forall|i: int| 0 <= i < parts.len() ==> !(#[trigger] parts[i]).contains(',')
}

/// An unordered collection of unique tag strings.
#[derive(Debug)]
pub struct Tags {
    /// The members, unique, in first-decoded order.
    pub items: Vec<String>,
}

impl View for Tags {
    type V = Set<Seq<char>>;

    open spec fn view(&self) -> Set<Seq<char>> {
        self.seq_view().to_set()
    }
}

impl Tags {
    /// The members in their deterministic in-memory order.
    pub open spec fn seq_view(self) -> Seq<Seq<char>> {
        views_of(self.items@)
    }

    /// Well-formed: at least one member, no member repeated, and no member
    /// contains the separator.
    pub open spec fn wf(self) -> bool {
        tagseq_wf(self.seq_view())
    }

    /// Decode a wire tag string: split on `,`, collapse duplicates.
    pub fn decode(s: &str) -> (r: Tags)
        ensures
            r.seq_view() == spec_dedup(spec_split(s@)),
            r@ == spec_split(s@).to_set(),
            r.wf(),
    {
        let parts = split_commas(s);
        let ghost all = views_of(parts@);
        let mut items: Vec<String> = Vec::new();
        let mut i: usize = 0;
        while i < parts.len()
            invariant
                i <= parts.len(),
                all == views_of(parts@),
                all == spec_split(s@),
                views_of(items@) == spec_dedup(all.take(i as int)),
            decreases parts.len() - i,
        {
            proof {
                assert(all.take(i + 1).drop_last() =~= all.take(i as int));
                assert(all.take(i + 1).last() == all[i as int]);
            }
            if !contains_string(&items, &parts[i]) {
                let ghost before = views_of(items@);
                items.push(parts[i].clone());
                proof {
                    assert(views_of(items@) =~= before.push(all[i as int]));
                }
            }
            i = i + 1;
        }
        proof {
            assert(all.take(parts@.len() as int) =~= all);
        }
        let r = Tags { items };
        proof {
            lemma_split_props(s@);
            lemma_dedup_props(all);
            // A split has at least one segment, so its first segment is kept.
            assert(all.contains(all[0]));
            assert(r.seq_view().contains(all[0]));
            assert(r.seq_view().len() >= 1);
            assert forall|i: int| 0 <= i < r.seq_view().len() implies !(
            #[trigger] r.seq_view()[i]).contains(',') by {
                assert(r.seq_view().contains(r.seq_view()[i]));
                assert(all.contains(r.seq_view()[i]));
                let k = choose|k: int| 0 <= k < all.len() && all[k] == r.seq_view()[i];
                assert(!all[k].contains(','));
            }
        }
        r
    }

    /// Encode the collection as its wire string: members joined with `,`.
    pub fn encode(&self) -> (r: String)
        requires
            self.wf(),
        ensures
            r@ == spec_join(self.seq_view()),
    {
        join_commas(&self.items)
    }
}

/// Relies on `str::split` with a `char` pattern: the segments between the
/// separators, in order, an empty string giving one empty segment.
#[verifier::external_body]
fn split_commas(s: &str) -> (r: Vec<String>)
    ensures
        views_of(r@) == spec_split(s@),
{
    s.split(',').map(|part| part.to_owned()).collect()
}

/// Relies on `itertools::join`: each item's `Display` text (for `String`,
/// the string itself), with the separator between each adjacent pair.
#[verifier::external_body]
fn join_commas(items: &Vec<String>) -> (r: String)
    ensures
        r@ == spec_join(views_of(items@)),
{
    itertools::join(items.iter(), ",")
}

/// Whether `x` is already among `items`.
fn contains_string(items: &Vec<String>, x: &String) -> (r: bool)
    ensures
        r == views_of(items@).contains(x@),
{
    let mut i: usize = 0;
    while i < items.len()
        invariant
            i <= items.len(),
            forall|j: int| 0 <= j < i ==> views_of(items@)[j] != x@,
        decreases items.len() - i,
    {
        if items[i].eq(x) {
            proof {
                assert(views_of(items@)[i as int] == x@);
            }
            return true;
        }
        i = i + 1;
    }
    false
}

/// A split has at least one segment and no segment contains the separator.
pub proof fn lemma_split_props(s: Seq<char>)
    ensures
        spec_split(s).len() >= 1,
        forall|i: int|
            0 <= i < spec_split(s).len() ==> !(#[trigger] spec_split(s)[i]).contains(','),
    decreases s.len(),
{
    if s.len() == 0 {
        assert(!spec_split(s)[0].contains(','));
    } else if s[0] == ',' {
        lemma_split_props(s.drop_first());
        assert forall|i: int| 0 <= i < spec_split(s).len() implies !(#[trigger] spec_split(
            s,
        )[i]).contains(',') by {
            if i == 0 {
                assert(spec_split(s)[0] =~= Seq::<char>::empty());
            } else {
                assert(spec_split(s)[i] == spec_split(s.drop_first())[i - 1]);
            }
        }
    } else {
        lemma_split_props(s.drop_first());
        let rest = spec_split(s.drop_first());
        assert forall|i: int| 0 <= i < spec_split(s).len() implies !(#[trigger] spec_split(
            s,
        )[i]).contains(',') by {
            if i == 0 {
                let head = seq![s[0]] + rest[0];
                assert(!rest[0].contains(','));
                assert forall|k: int| 0 <= k < head.len() implies head[k] != ',' by {
                    if k == 0 {
                        assert(head[0] == s[0]);
                    } else {
                        assert(head[k] == rest[0][k - 1]);
                        assert(rest[0].contains(rest[0][k - 1])) by {
                            assert(0 <= k - 1 < rest[0].len());
                        }
                    }
                }
                assert(!head.contains(',')) by {
                    if head.contains(',') {
                        let k = choose|k: int| 0 <= k < head.len() && head[k] == ',';
                        assert(head[k] != ',');
                    }
                }
            } else {
                assert(spec_split(s)[i] == rest.drop_first()[i - 1]);
                assert(rest.drop_first()[i - 1] == rest[i]);
            }
        }
    }
}

/// Deduplication keeps exactly the distinct members: no duplicates remain
/// and the member set is unchanged.
pub proof fn lemma_dedup_props(parts: Seq<Seq<char>>)
    ensures
        spec_dedup(parts).no_duplicates(),
        spec_dedup(parts).to_set() == parts.to_set(),
        forall|x: Seq<char>| #[trigger] spec_dedup(parts).contains(x) <==> parts.contains(x),
    decreases parts.len(),
{
    if parts.len() == 0 {
        assert(spec_dedup(parts).to_set() =~= parts.to_set());
    } else {
        lemma_dedup_props(parts.drop_last());
        let prefix = spec_dedup(parts.drop_last());
        let x = parts.last();
        assert forall|y: Seq<char>| #[trigger] spec_dedup(parts).contains(y) <==> parts.contains(
            y,
        ) by {
            assert(parts.drop_last().contains(y) || y == x <==> parts.contains(y)) by {
                if parts.drop_last().contains(y) {
                    let k = choose|k: int| 0 <= k < parts.drop_last().len() && parts.drop_last()[k] == y;
                    assert(parts[k] == y);
                }
                if parts.contains(y) {
                    let k = choose|k: int| 0 <= k < parts.len() && parts[k] == y;
                    if k < parts.len() - 1 {
                        assert(parts.drop_last()[k] == y);
                    }
                }
            }
            if !prefix.contains(x) && spec_dedup(parts).contains(y) {
                let k = choose|k: int| 0 <= k < spec_dedup(parts).len() && spec_dedup(parts)[k] == y;
                if k < prefix.len() {
                    assert(prefix.contains(y));
                }
            }
            if !prefix.contains(x) && prefix.contains(y) {
                let k = choose|k: int| 0 <= k < prefix.len() && prefix[k] == y;
                assert(prefix.push(x)[k] == y);
            }
            if !prefix.contains(x) && y == x {
                assert(prefix.push(x)[prefix.len() as int] == x);
            }
        }
        if !prefix.contains(x) {
            assert(spec_dedup(parts).no_duplicates()) by {
                assert forall|i: int, j: int|
                    0 <= i < prefix.push(x).len() && 0 <= j < prefix.push(x).len() && i != j implies
                    prefix.push(x)[i] != prefix.push(x)[j] by {
                    if i < prefix.len() && j < prefix.len() {
                        assert(prefix.push(x)[i] == prefix[i]);
                        assert(prefix.push(x)[j] == prefix[j]);
                    } else if i < prefix.len() {
                        assert(prefix.contains(prefix[i]));
                    } else if j < prefix.len() {
                        assert(prefix.contains(prefix[j]));
                    }
                }
            }
        }
        assert(spec_dedup(parts).to_set() =~= parts.to_set());
    }
}

/// Joining the segments of a split reproduces the original string.
pub proof fn lemma_join_split(s: Seq<char>)
    ensures
        spec_join(spec_split(s)) == s,
    decreases s.len(),
{
    lemma_split_props(s);
    if s.len() == 0 {
        assert(spec_join(spec_split(s)) =~= s);
    } else if s[0] == ',' {
        lemma_join_split(s.drop_first());
        lemma_split_props(s.drop_first());
        let rest = spec_split(s.drop_first());
        let whole = seq![Seq::<char>::empty()] + rest;
        assert(whole.len() >= 2);
        assert(whole[0] =~= Seq::<char>::empty());
        assert(whole.drop_first() =~= rest);
        assert(spec_join(whole) =~= whole[0] + seq![','] + spec_join(rest));
        assert(spec_join(spec_split(s)) =~= s);
    } else {
        lemma_join_split(s.drop_first());
        let rest = spec_split(s.drop_first());
        let head = seq![s[0]] + rest[0];
        let whole = seq![head] + rest.drop_first();
        assert(spec_split(s) == whole);
        if rest.len() == 1 {
            assert(whole.len() == 1);
            assert(spec_join(whole) == head);
            assert(spec_join(rest) == rest[0]);
            assert(head =~= seq![s[0]] + spec_join(rest));
            assert(spec_join(spec_split(s)) =~= s);
        } else {
            assert(whole.len() >= 2);
            assert(whole[0] == head);
            assert(whole.drop_first() =~= rest.drop_first());
            assert(spec_join(whole) == head + seq![','] + spec_join(rest.drop_first()));
            assert(spec_join(rest) == rest[0] + seq![','] + spec_join(rest.drop_first()));
            assert(spec_join(whole) =~= seq![s[0]] + spec_join(rest));
            assert(spec_join(spec_split(s)) =~= s);
        }
    }
}

/// Splitting `a + "," + t` yields `a` and then the segments of `t`, when `a`
/// contains no separator.
proof fn lemma_split_concat(a: Seq<char>, t: Seq<char>)
    requires
        !a.contains(','),
    ensures
        spec_split(a + seq![','] + t) == seq![a] + spec_split(t),
    decreases a.len(),
{
    let s = a + seq![','] + t;
    if a.len() == 0 {
        assert(s.len() > 0);
        assert(s[0] == ',');
        assert(s.drop_first() =~= t);
        assert(spec_split(s) == seq![Seq::<char>::empty()] + spec_split(t));
        assert(seq![Seq::<char>::empty()] + spec_split(t) =~~= seq![a] + spec_split(t));
    } else {
        assert(s[0] == a[0]);
        assert(a.contains(a[0])) by {
            assert(0 <= 0 < a.len());
        }
        assert(s[0] != ',');
        assert(a.drop_first().contains(',') ==> a.contains(',')) by {
            if a.drop_first().contains(',') {
                let k = choose|k: int| 0 <= k < a.drop_first().len() && a.drop_first()[k] == ',';
                assert(a[k + 1] == ',');
            }
        }
        lemma_split_concat(a.drop_first(), t);
        assert(s.drop_first() =~= a.drop_first() + seq![','] + t);
        let rest = spec_split(s.drop_first());
        assert(rest == seq![a.drop_first()] + spec_split(t));
        assert(rest[0] == a.drop_first());
        assert(seq![s[0]] + rest[0] =~= a);
        assert(rest.drop_first() =~= spec_split(t));
        assert(spec_split(s) =~= seq![a] + spec_split(t));
    }
}

/// Splitting the join of comma-free segments returns exactly those segments.
pub proof fn lemma_split_join(parts: Seq<Seq<char>>)
    requires
        parts.len() >= 1,
        forall|i: int| 0 <= i < parts.len() ==> !(#[trigger] parts[i]).contains(','),
    ensures
        spec_split(spec_join(parts)) == parts,
    decreases parts.len(),
{
    if parts.len() == 1 {
        lemma_split_single(parts[0]);
        assert(spec_split(spec_join(parts)) =~= parts);
    } else {
        assert(forall|i: int|
            0 <= i < parts.drop_first().len() ==> !(#[trigger] parts.drop_first()[i]).contains(
                ',',
            ));
        lemma_split_join(parts.drop_first());
        lemma_split_concat(parts[0], spec_join(parts.drop_first()));
        assert(spec_split(spec_join(parts)) =~= parts);
    }
}

/// Splitting a comma-free string yields that one segment.
proof fn lemma_split_single(a: Seq<char>)
    requires
        !a.contains(','),
    ensures
        spec_split(a) == seq![a],
    decreases a.len(),
{
    if a.len() == 0 {
        assert(spec_split(a) =~~= seq![a]);
    } else {
        assert(a.contains(a[0])) by {
            assert(0 <= 0 < a.len());
        }
        assert(a.drop_first().contains(',') ==> a.contains(',')) by {
            if a.drop_first().contains(',') {
                let k = choose|k: int| 0 <= k < a.drop_first().len() && a.drop_first()[k] == ',';
                assert(a[k + 1] == ',');
            }
        }
        lemma_split_single(a.drop_first());
        let rest = spec_split(a.drop_first());
        assert(rest[0] == a.drop_first());
        assert(seq![a[0]] + rest[0] =~= a);
        assert(rest.drop_first() =~= Seq::<Seq<char>>::empty());
        assert(spec_split(a) =~= seq![a]);
    }
}

/// Law: encoding a well-formed tag collection emits each member exactly
/// once, in the collection's deterministic order, and decoding that string
/// returns the collection unchanged.
pub proof fn lemma_tags_round_trip(t: Tags)
    requires
        t.wf(),
    ensures
        spec_split(spec_join(t.seq_view())) == t.seq_view(),
        spec_dedup(spec_split(spec_join(t.seq_view()))) == t.seq_view(),
        spec_split(spec_join(t.seq_view())).to_set() == t@,
{
    lemma_split_join(t.seq_view());
    lemma_dedup_id(t.seq_view());
}

/// Deduplication leaves an already duplicate-free sequence unchanged.
pub proof fn lemma_dedup_id(parts: Seq<Seq<char>>)
    requires
        parts.no_duplicates(),
    ensures
        spec_dedup(parts) == parts,
    decreases parts.len(),
{
    if parts.len() == 0 {
        assert(spec_dedup(parts) =~= parts);
    } else {
        assert(parts.drop_last().no_duplicates());
        lemma_dedup_id(parts.drop_last());
        if parts.drop_last().contains(parts.last()) {
            let k = choose|k: int|
                0 <= k < parts.drop_last().len() && parts.drop_last()[k] == parts.last();
            assert(parts[k] == parts.last());
            assert(false);
        }
        assert(spec_dedup(parts) =~= parts);
    }
}

/// Law: a wire tag string whose segments are distinct is reproduced exactly
/// by a decode followed by an encode.
pub proof fn lemma_tags_wire_round_trip(s: Seq<char>)
    requires
        spec_split(s).no_duplicates(),
    ensures
        spec_join(spec_dedup(spec_split(s))) == s,
{
    lemma_dedup_id(spec_split(s));
    lemma_join_split(s);
}

} // verus!
