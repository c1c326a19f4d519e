//! An ordered, duplicate-free list of tags.  Its view is the sequence of
//! tag texts in insertion order; most contracts speak of the set of tags.

use crate::text::lemma_views_of_push;
use crate::text::push_char;
use crate::text::str_eq;
use crate::text::views_of;
use vstd::prelude::*;
use vstd::string::StringExecFns;

verus! {

/// The set of tag texts in a sequence.
pub open spec fn tag_set_of(s: Seq<Seq<char>>) -> Set<Seq<char>> {
    Set::new(|t: Seq<char>| s.contains(t))
}

/// No tag occurs twice.
pub open spec fn tags_unique(s: Seq<Seq<char>>) -> bool {
    forall|i: int, j: int| 0 <= i < j < s.len() ==> s[i] != s[j]
}

/// A one-tag sequence holds exactly that tag.
proof fn lemma_singleton_tag(t: Seq<char>, x: Seq<char>)
    ensures
        seq![t].contains(x) <==> x == t,
{
    assert(seq![t][0] == t);
    if seq![t].contains(x) {
        let k = choose|k: int| 0 <= k < seq![t].len() && seq![t][k] == x;
        assert(k == 0);
    }
}

/// The tags of `s` that do not occur in `excluded`, keeping their order.
pub open spec fn tags_not_in(s: Seq<Seq<char>>, excluded: Seq<Seq<char>>) -> Seq<Seq<char>>
    decreases s.len(),
{
    if s.len() == 0 {
        Seq::empty()
    } else if excluded.contains(s[0]) {
        tags_not_in(s.drop_first(), excluded)
    } else {
        seq![s[0]] + tags_not_in(s.drop_first(), excluded)
    }
}

/// Filtering one more tag appends it exactly when it is not excluded.
proof fn lemma_tags_not_in_snoc(s: Seq<Seq<char>>, t: Seq<char>, excluded: Seq<Seq<char>>)
    ensures
        tags_not_in(s.push(t), excluded) == if excluded.contains(t) {
            tags_not_in(s, excluded)
        } else {
            tags_not_in(s, excluded) + seq![t]
        },
    decreases s.len(),
{
    if s.len() == 0 {
        assert(s =~= Seq::<Seq<char>>::empty());
        assert(s.push(t)[0] == t);
        assert(s.push(t).drop_first() =~= s);
        if excluded.contains(t) {
            assert(tags_not_in(s.push(t), excluded) == tags_not_in(s, excluded));
        } else {
            assert(tags_not_in(s.push(t), excluded) == seq![t] + tags_not_in(s, excluded));
            assert(tags_not_in(s, excluded) == Seq::<Seq<char>>::empty());
            assert(seq![t] + tags_not_in(s, excluded) =~= tags_not_in(s, excluded) + seq![t]);
        }
    } else {
        assert(s.push(t)[0] == s[0]);
        assert(s.push(t).drop_first() =~= s.drop_first().push(t));
        lemma_tags_not_in_snoc(s.drop_first(), t, excluded);
        if excluded.contains(s[0]) {
            assert(tags_not_in(s.push(t), excluded) == tags_not_in(
                s.drop_first().push(t),
                excluded,
            ));
            assert(tags_not_in(s, excluded) == tags_not_in(s.drop_first(), excluded));
        } else {
            assert(tags_not_in(s.push(t), excluded) == seq![s[0]] + tags_not_in(
                s.drop_first().push(t),
                excluded,
            ));
            assert(tags_not_in(s, excluded) == seq![s[0]] + tags_not_in(s.drop_first(), excluded));
            if !excluded.contains(t) {
                assert(seq![s[0]] + (tags_not_in(s.drop_first(), excluded) + seq![t]) =~= (seq![
                    s[0],
                ] + tags_not_in(s.drop_first(), excluded)) + seq![t]);
            }
        }
    }
}

/// What the filter keeps: exactly the tags of `s` outside `excluded`, in
/// order and without introducing duplicates.
proof fn lemma_tags_not_in_props(s: Seq<Seq<char>>, excluded: Seq<Seq<char>>)
    ensures
        forall|t: Seq<char>| #[trigger]
            tags_not_in(s, excluded).contains(t) <==> (s.contains(t) && !excluded.contains(t)),
        tags_unique(s) ==> tags_unique(tags_not_in(s, excluded)),
    decreases s.len(),
{
    if s.len() == 0 {
        assert forall|t: Seq<char>| #[trigger]
            tags_not_in(s, excluded).contains(t) <==> (s.contains(t) && !excluded.contains(
            t,
        )) by {
            assert(!tags_not_in(s, excluded).contains(t));
            assert(!s.contains(t));
        }
    } else {
        lemma_tags_not_in_props(s.drop_first(), excluded);
        let rest = tags_not_in(s.drop_first(), excluded);
        assert forall|t: Seq<char>| #[trigger]
            tags_not_in(s, excluded).contains(t) <==> (s.contains(t) && !excluded.contains(
            t,
        )) by {
            if tags_not_in(s, excluded).contains(t) {
                if excluded.contains(s[0]) {
                    assert(rest.contains(t));
                } else {
                    let cur = tags_not_in(s, excluded);
                    let k = choose|k: int| 0 <= k < cur.len() && cur[k] == t;
                    if k == 0 {
                        assert(t == s[0]);
                        assert(s.contains(s[0]));
                    } else {
                        assert(cur[k] == rest[k - 1]);
                        assert(rest.contains(t));
                    }
                }
                if rest.contains(t) {
                    assert(s.drop_first().contains(t));
                    let m = choose|m: int| 0 <= m < s.drop_first().len() && s.drop_first()[m] == t;
                    assert(s[m + 1] == t);
                    assert(s.contains(t));
                }
            }
            if s.contains(t) && !excluded.contains(t) {
                let k = choose|k: int| 0 <= k < s.len() && s[k] == t;
                if k == 0 {
                    assert(!excluded.contains(s[0]));
                    assert(tags_not_in(s, excluded)[0] == t);
                    assert(tags_not_in(s, excluded).contains(t));
                } else {
                    assert(s.drop_first()[k - 1] == t);
                    assert(s.drop_first().contains(t));
                    assert(rest.contains(t));
                    let m = choose|m: int| 0 <= m < rest.len() && rest[m] == t;
                    if excluded.contains(s[0]) {
                        assert(tags_not_in(s, excluded).contains(t));
                    } else {
                        assert(tags_not_in(s, excluded)[m + 1] == rest[m]);
                        assert(tags_not_in(s, excluded).contains(t));
                    }
                }
            }
        }
        if tags_unique(s) {
            assert forall|i: int, j: int|
                0 <= i < j < s.drop_first().len() implies s.drop_first()[i] != s.drop_first()[
            j] by {
                assert(s.drop_first()[i] == s[i + 1] && s.drop_first()[j] == s[j + 1]);
            }
            if !excluded.contains(s[0]) {
                let cur = tags_not_in(s, excluded);
                assert(cur == seq![s[0]] + rest);
                assert forall|i: int, j: int| 0 <= i < j < cur.len() implies cur[i] != cur[j] by {
                    if i == 0 {
                        assert(cur[j] == rest[j - 1]);
                        assert(rest.contains(rest[j - 1]));
                        assert(s.drop_first().contains(rest[j - 1]));
                        let k = choose|k: int|
                            0 <= k < s.drop_first().len() && s.drop_first()[k] == rest[j - 1];
                        assert(s[k + 1] == rest[j - 1]);
                        assert(s[0] != s[k + 1]);
                        assert(cur[i] == s[0]);
                    } else {
                        assert(cur[i] == rest[i - 1]);
                        assert(cur[j] == rest[j - 1]);
                    }
                }
            }
        }
    }
}

/// The tag texts joined by a separator, in list order.
pub open spec fn joined_tags(items: Seq<Seq<char>>, sep: char) -> Seq<char>
    decreases items.len(),
{
    if items.len() == 0 {
        Seq::empty()
    } else if items.len() == 1 {
        items[0]
    } else {
        items[0] + seq![sep] + joined_tags(items.drop_first(), sep)
    }
}

/// Joining one more tag appends a separator and the tag.
proof fn lemma_joined_tags_snoc(items: Seq<Seq<char>>, t: Seq<char>, sep: char)
    ensures
        joined_tags(items.push(t), sep) == if items.len() == 0 {
            t
        } else {
            joined_tags(items, sep) + seq![sep] + t
        },
    decreases items.len(),
{
    if items.len() == 0 {
        assert(items.push(t).len() == 1);
        assert(items.push(t)[0] == t);
        assert(joined_tags(items.push(t), sep) == t);
    } else {
        assert(items.push(t)[0] == items[0]);
        assert(items.push(t).drop_first() =~= items.drop_first().push(t));
        lemma_joined_tags_snoc(items.drop_first(), t, sep);
        assert(joined_tags(items.push(t), sep) == items[0] + seq![sep] + joined_tags(
            items.drop_first().push(t),
            sep,
        ));
        if items.len() == 1 {
            assert(items.drop_first().len() == 0);
            assert(joined_tags(items.drop_first().push(t), sep) == t);
            assert(joined_tags(items, sep) == items[0]);
            assert(items[0] + seq![sep] + t =~= joined_tags(items, sep) + seq![sep] + t);
        } else {
            assert(joined_tags(items.drop_first().push(t), sep) == joined_tags(
                items.drop_first(),
                sep,
            ) + seq![sep] + t);
            assert(joined_tags(items, sep) == items[0] + seq![sep] + joined_tags(
                items.drop_first(),
                sep,
            ));
            assert(items[0] + seq![sep] + (joined_tags(items.drop_first(), sep) + seq![sep] + t)
                =~= joined_tags(items, sep) + seq![sep] + t);
        }
    }
}

/// An ordered, duplicate-free tag list.
pub struct TagList {
    items: Vec<String>,
}

impl View for TagList {
    type V = Seq<Seq<char>>;

    closed spec fn view(&self) -> Seq<Seq<char>> {
        views_of(self.items@)
    }
}

impl TagList {
    /// No tag occurs twice.
    pub open spec fn wf(&self) -> bool {
        tags_unique(self@)
    }

    /// The set of tags in the list.
    pub open spec fn tag_set(&self) -> Set<Seq<char>> {
        tag_set_of(self@)
    }

    /// An empty list.
    pub fn new() -> (r: TagList)
        ensures
            r@ == Seq::<Seq<char>>::empty(),
            r.wf(),
    {
        let r = TagList { items: Vec::new() };
        proof {
            assert(r@ =~= Seq::<Seq<char>>::empty());
        }
        r
    }

    /// How many tags the list holds.
    pub fn len(&self) -> (r: usize)
        ensures
            r == self@.len(),
    {
        self.items.len()
    }

    /// Whether the list holds no tag.
    pub fn is_empty(&self) -> (r: bool)
        ensures
            r == (self@.len() == 0),
    {
        self.items.len() == 0
    }

    /// Whether the given tag is in the list.
    pub fn has(&self, value: &str) -> (r: bool)
        ensures
            r == self@.contains(value@),
    {
        let mut i: usize = 0;
        while i < self.items.len()
            invariant
                i <= self@.len(),
                self@.len() == self.items@.len(),
                forall|k: int| 0 <= k < i ==> self@[k] != value@,
            decreases self@.len() - i,
        {
            proof {
                assert(self@[i as int] == self.items@[i as int]@);
            }
            if str_eq(self.items[i].as_str(), value) {
                proof {
                    assert(self@[i as int] == value@);
                }
                return true;
            }
            i = i + 1;
        }
        proof {
            if self@.contains(value@) {
                let k = choose|k: int| 0 <= k < self@.len() && self@[k] == value@;
                assert(false);
            }
        }
        false
    }

    /// Inserts a tag; reports whether it was new.  An already-present tag
    /// leaves the list unchanged.
    pub fn insert(&mut self, value: &str) -> (r: bool)
        requires
            old(self).wf(),
        ensures
            final(self).wf(),
            r == !old(self)@.contains(value@),
            final(self)@ == if old(self)@.contains(value@) {
                old(self)@
            } else {
                old(self)@.push(value@)
            },
    {
        if self.has(value) {
            return false;
        }
        let ghost items_old = self.items@;
        let item = String::from_str(value);
        self.items.push(item);
        proof {
            lemma_views_of_push(items_old, item);
            assert forall|i: int, j: int| 0 <= i < j < self@.len() implies self@[i] != self@[
            j] by {
                if j == self@.len() - 1 {
                    assert(self@[i] == old(self)@[i]);
                    assert(old(self)@.contains(old(self)@[i]));
                    assert(self@[j] == value@);
                }
            }
        }
        true
    }

    /// Removes a tag; reports whether it was present.
    pub fn remove(&mut self, value: &str) -> (r: bool)
        requires
            old(self).wf(),
        ensures
            final(self).wf(),
            r == old(self)@.contains(value@),
            final(self)@ == tags_not_in(old(self)@, seq![value@]),
            final(self).tag_set() == old(self).tag_set().remove(value@),
    {
        let mut i: usize = 0;
        let mut found: bool = false;
        let mut out: Vec<String> = Vec::new();
        while i < self.items.len()
            invariant
                i <= self@.len(),
                self@.len() == self.items@.len(),
                self@ == old(self)@,
                self.wf(),
                views_of(out@) == tags_not_in(self@.take(i as int), seq![value@]),
                found == self@.take(i as int).contains(value@),
            decreases self@.len() - i,
        {
            let ghost prefix = self@.take(i as int);
            let ghost out_old = out@;
            proof {
                assert(self@[i as int] == self.items@[i as int]@);
                lemma_singleton_tag(value@, self@[i as int]);
            }
            if str_eq(self.items[i].as_str(), value) {
                found = true;
                proof {
                    assert(self@[i as int] == value@);
                    assert(self@.take(i + 1 as int)[i as int] == value@);
                    assert(self@.take(i + 1 as int).contains(value@));
                }
            } else {
                let item = self.items[i].clone();
                out.push(item);
                proof {
                    lemma_views_of_push(out_old, item);
                }
            }
            proof {
                lemma_tags_not_in_snoc(prefix, self@[i as int], seq![value@]);
                assert(prefix.push(self@[i as int]) =~= self@.take(i + 1 as int));
                if self@[i as int] != value@ {
                    assert(views_of(out@) =~= tags_not_in(self@.take(i + 1 as int), seq![value@]));
                    if !found {
                        let pref1 = self@.take(i + 1 as int);
                        assert(!pref1.contains(value@)) by {
                            if pref1.contains(value@) {
                                let k = choose|k: int| 0 <= k < pref1.len() && pref1[k] == value@;
                                assert(self@.take(i as int)[k] == value@ || k == i);
                            }
                        }
                    }
                }
            }
            i = i + 1;
        }
        proof {
            assert(self@.take(self@.len() as int) =~= self@);
        }
        self.items = out;
        proof {
            lemma_tags_not_in_props(old(self)@, seq![value@]);
            assert forall|t: Seq<char>|
                final(self).tag_set().contains(t) <==> #[trigger] old(self).tag_set().remove(
                value@,
            ).contains(t) by {
                lemma_singleton_tag(value@, t);
            }
            assert(final(self).tag_set() =~= old(self).tag_set().remove(value@));
        }
        found
    }

    /// The tags of this list that are not in the other: the set difference,
    /// keeping this list's order.
    pub fn difference(&self, other: &TagList) -> (r: TagList)
        requires
            self.wf(),
        ensures
            r.wf(),
            r@ == tags_not_in(self@, other@),
            r.tag_set() == self.tag_set().difference(other.tag_set()),
    {
        let mut out: Vec<String> = Vec::new();
        let mut i: usize = 0;
        while i < self.items.len()
            invariant
                i <= self@.len(),
                self@.len() == self.items@.len(),
                views_of(out@) == tags_not_in(self@.take(i as int), other@),
            decreases self@.len() - i,
        {
            let ghost prefix = self@.take(i as int);
            let ghost out_old = out@;
            proof {
                assert(self@[i as int] == self.items@[i as int]@);
            }
            if !other.has(self.items[i].as_str()) {
                let item = self.items[i].clone();
                out.push(item);
                proof {
                    lemma_views_of_push(out_old, item);
                }
            }
            proof {
                lemma_tags_not_in_snoc(prefix, self@[i as int], other@);
                assert(prefix.push(self@[i as int]) =~= self@.take(i + 1 as int));
                assert(views_of(out@) =~= tags_not_in(self@.take(i + 1 as int), other@));
            }
            i = i + 1;
        }
        proof {
            assert(self@.take(self@.len() as int) =~= self@);
        }
        let r = TagList { items: out };
        proof {
            lemma_tags_not_in_props(self@, other@);
            assert(r.tag_set() =~= self.tag_set().difference(other.tag_set()));
        }
        r
    }

    /// All tags of both lists: this list's order first, then the other's
    /// new tags in their order.
    pub fn union(&self, other: &TagList) -> (r: TagList)
        requires
            self.wf(),
            other.wf(),
        ensures
            r.wf(),
            r@ == self@ + tags_not_in(other@, self@),
            r.tag_set() == self.tag_set().union(other.tag_set()),
    {
        let mut out: Vec<String> = Vec::new();
        let mut i: usize = 0;
        while i < self.items.len()
            invariant
                i <= self@.len(),
                self@.len() == self.items@.len(),
                views_of(out@) == self@.take(i as int),
            decreases self@.len() - i,
        {
            let ghost out_old = out@;
            proof {
                assert(self@[i as int] == self.items@[i as int]@);
            }
            let item = self.items[i].clone();
            out.push(item);
            proof {
                lemma_views_of_push(out_old, item);
                assert(views_of(out@) =~= self@.take(i + 1 as int));
            }
            i = i + 1;
        }
        proof {
            assert(self@.take(self@.len() as int) =~= self@);
        }
        let mut j: usize = 0;
        while j < other.items.len()
            invariant
                j <= other@.len(),
                other@.len() == other.items@.len(),
                views_of(out@) == self@ + tags_not_in(other@.take(j as int), self@),
            decreases other@.len() - j,
        {
            let ghost prefix = other@.take(j as int);
            let ghost out_old = out@;
            proof {
                assert(other@[j as int] == other.items@[j as int]@);
            }
            if !self.has(other.items[j].as_str()) {
                let item = other.items[j].clone();
                out.push(item);
                proof {
                    lemma_views_of_push(out_old, item);
                }
            }
            proof {
                lemma_tags_not_in_snoc(prefix, other@[j as int], self@);
                assert(prefix.push(other@[j as int]) =~= other@.take(j + 1 as int));
                assert(views_of(out@) =~= self@ + tags_not_in(other@.take(j + 1 as int), self@));
            }
            j = j + 1;
        }
        proof {
            assert(other@.take(other@.len() as int) =~= other@);
        }
        let r = TagList { items: out };
        proof {
            lemma_tags_not_in_props(other@, self@);
            let n = self@.len() as int;
            let rest = tags_not_in(other@, self@);
            assert forall|i2: int, j2: int| 0 <= i2 < j2 < r@.len() implies r@[i2] != r@[j2] by {
                if i2 < n && j2 >= n {
                    assert(r@[j2] == rest[j2 - n]);
                    assert(rest.contains(rest[j2 - n]));
                    assert(!self@.contains(rest[j2 - n]));
                    assert(self@.contains(self@[i2]));
                    assert(r@[i2] == self@[i2]);
                } else if i2 >= n {
                    assert(r@[i2] == rest[i2 - n] && r@[j2] == rest[j2 - n]);
                } else {
                    assert(r@[i2] == self@[i2] && r@[j2] == self@[j2]);
                }
            }
            assert forall|t: Seq<char>|
                r.tag_set().contains(t) <==> #[trigger] self.tag_set().union(
                other.tag_set(),
            ).contains(t) by {
                if r@.contains(t) {
                    let k = choose|k: int| 0 <= k < r@.len() && r@[k] == t;
                    if k < n {
                        assert(self@[k] == t);
                        assert(self@.contains(t));
                    } else {
                        assert(rest[k - n] == t);
                        assert(rest.contains(t));
                    }
                }
                if self@.contains(t) {
                    let k = choose|k: int| 0 <= k < self@.len() && self@[k] == t;
                    assert(r@[k] == t);
                    assert(r@.contains(t));
                }
                if other@.contains(t) && !self@.contains(t) {
                    assert(rest.contains(t));
                    let m = choose|m: int| 0 <= m < rest.len() && rest[m] == t;
                    assert(r@[m + n] == t);
                    assert(r@.contains(t));
                }
            }
            assert(r.tag_set() =~= self.tag_set().union(other.tag_set()));
        }
        r
    }

    /// The tags joined by a separator, in list order.
    pub fn join(&self, separator: char) -> (r: String)
        ensures
            r@ == joined_tags(self@, separator),
    {
        let mut out = String::new();
        let mut i: usize = 0;
        while i < self.items.len()
            invariant
                i <= self@.len(),
                self@.len() == self.items@.len(),
                out@ == joined_tags(self@.take(i as int), separator),
            decreases self@.len() - i,
        {
            let ghost prefix = self@.take(i as int);
            if i > 0 {
                push_char(&mut out, separator);
            }
            out.append(self.items[i].as_str());
            proof {
                assert(self@[i as int] == self.items@[i as int]@);
                lemma_joined_tags_snoc(prefix, self@[i as int], separator);
                assert(prefix.push(self@[i as int]) =~= self@.take(i + 1 as int));
                assert(out@ =~= joined_tags(self@.take(i + 1 as int), separator));
            }
            i = i + 1;
        }
        proof {
            assert(self@.take(self@.len() as int) =~= self@);
        }
        out
    }

    /// The tags as a fresh vector of texts, in list order.
    pub fn iter(&self) -> (r: Vec<String>)
        ensures
            views_of(r@) == self@,
    {
        let mut out: Vec<String> = Vec::new();
        let mut i: usize = 0;
        while i < self.items.len()
            invariant
                i <= self@.len(),
                self@.len() == self.items@.len(),
                views_of(out@) == self@.take(i as int),
            decreases self@.len() - i,
        {
            let ghost out_old = out@;
            proof {
                assert(self@[i as int] == self.items@[i as int]@);
            }
            let item = self.items[i].clone();
            out.push(item);
            proof {
                lemma_views_of_push(out_old, item);
                assert(views_of(out@) =~= self@.take(i + 1 as int));
            }
            i = i + 1;
        }
        proof {
            assert(self@.take(self@.len() as int) =~= self@);
        }
        out
    }

    /// A copy of the list.
    pub fn duplicate(&self) -> (r: TagList)
        ensures
            r@ == self@,
    {
        let items = self.iter();
        TagList { items }
    }

    /// Builds a list from texts, dropping duplicates and keeping first
    /// occurrences in order.
    pub fn from_strings(values: &Vec<String>) -> (r: TagList)
        ensures
            r.wf(),
            r.tag_set() == tag_set_of(views_of(values@)),
    {
        let mut out = TagList::new();
        let mut i: usize = 0;
        while i < values.len()
            invariant
                i <= values@.len(),
                out.wf(),
                out.tag_set() == tag_set_of(views_of(values@).take(i as int)),
            decreases values@.len() - i,
        {
            let ghost all = views_of(values@);
            let ghost seen = all.take(i as int);
            let ghost old_view = out@;
            proof {
                assert(all[i as int] == values@[i as int]@);
            }
            out.insert(values[i].as_str());
            proof {
                let cur = all[i as int];
                let pref1 = all.take(i + 1 as int);
                assert(seen.push(cur) =~= pref1);
                assert forall|t: Seq<char>| #[trigger]
                    tag_set_of(pref1).contains(t) implies out.tag_set().contains(t) by {
                    let k = choose|k: int| 0 <= k < pref1.len() && pref1[k] == t;
                    if k < i {
                        assert(seen[k] == t);
                        assert(seen.contains(t));
                        assert(tag_set_of(seen).contains(t));
                        assert(old_view.contains(t));
                        let m = choose|m: int| 0 <= m < old_view.len() && old_view[m] == t;
                        assert(out@[m] == t);
                        assert(out@.contains(t));
                    } else {
                        assert(t == cur);
                        if old_view.contains(cur) {
                            let m = choose|m: int| 0 <= m < old_view.len() && old_view[m] == cur;
                            assert(out@[m] == t);
                        } else {
                            assert(out@ == old_view.push(cur));
                            assert(out@[old_view.len() as int] == t);
                        }
                        assert(out@.contains(t));
                    }
                }
                assert forall|t: Seq<char>| #[trigger]
                    out.tag_set().contains(t) implies tag_set_of(pref1).contains(t) by {
                    let k = choose|k: int| 0 <= k < out@.len() && out@[k] == t;
                    if k < old_view.len() {
                        assert(old_view[k] == t);
                        assert(old_view.contains(t));
                        assert(tag_set_of(seen).contains(t));
                        assert(seen.contains(t));
                        let m = choose|m: int| 0 <= m < seen.len() && seen[m] == t;
                        assert(pref1[m] == t);
                    } else {
                        assert(t == cur);
                        assert(pref1[i as int] == t);
                    }
                    assert(pref1.contains(t));
                }
                assert(out.tag_set() =~= tag_set_of(pref1));
            }
            i = i + 1;
        }
        proof {
            let all = views_of(values@);
            assert(all.take(all.len() as int) =~= all);
        }
        out
    }
}

/// Tag diff correctness: removing from the old set exactly the orphans (old
/// minus new) and adding exactly the fresh tags (new minus old) yields the
/// new set — the delta applied by an update touches nothing else.
pub proof fn lemma_tag_delta(old_tags: Set<Seq<char>>, new_tags: Set<Seq<char>>)
    ensures
        old_tags.difference(old_tags.difference(new_tags)).union(new_tags.difference(old_tags))
            == new_tags,
{
    assert(old_tags.difference(old_tags.difference(new_tags)).union(new_tags.difference(old_tags))
        =~= new_tags);
}

} // verus!
