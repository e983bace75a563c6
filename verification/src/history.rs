//! The persistent history: a mapping from clipboard text to its tag list,
//! held as an association vector with unique keys and viewed as a `Map`.
//! Loading is tolerant: a store file that does not have the expected shape
//! loads as the empty map.

use vstd::prelude::*;

use crate::codec;

verus! {

/// The map described by an entry sequence: later entries overwrite earlier
/// ones.
pub open spec fn map_of(es: Seq<(Seq<char>, Seq<Seq<char>>)>) -> Map<Seq<char>, Seq<Seq<char>>>
    decreases es.len(),
{
    if es.len() == 0 {
        Map::empty()
    } else {
        map_of(es.drop_last()).insert(es.last().0, es.last().1)
    }
}

/// A key occurs in the map of `es` exactly when some entry has it.
pub proof fn lemma_map_of_contains(es: Seq<(Seq<char>, Seq<Seq<char>>)>, k: Seq<char>)
    ensures
        map_of(es).contains_key(k) <==> exists|i: int| 0 <= i < es.len() && es[i].0 == k,
    decreases es.len(),
{
    if es.len() > 0 {
        lemma_map_of_contains(es.drop_last(), k);
        if es.last().0 == k {
            assert(es[es.len() - 1].0 == k);
        } else if map_of(es).contains_key(k) {
            let i = choose|i: int| 0 <= i < es.drop_last().len() && es.drop_last()[i].0 == k;
            assert(es[i].0 == k);
        } else {
            assert(forall|i: int| 0 <= i < es.len() && es[i].0 == k ==> i < es.len() - 1
                && es.drop_last()[i].0 == k);
        }
    }
}

/// With unique keys, the map of `es` sends each entry's key to its tags.
pub proof fn lemma_map_of_index(es: Seq<(Seq<char>, Seq<Seq<char>>)>, i: int)
    requires
        0 <= i < es.len(),
        forall|a: int, b: int| 0 <= a < b < es.len() ==> es[a].0 != es[b].0,
    ensures
        map_of(es).contains_key(es[i].0),
        map_of(es)[es[i].0] == es[i].1,
    decreases es.len(),
{
    if i == es.len() - 1 {
    } else {
        assert(forall|a: int, b: int| 0 <= a < b < es.drop_last().len()
            ==> es.drop_last()[a].0 != es.drop_last()[b].0);
        lemma_map_of_index(es.drop_last(), i);
        assert(es[i].0 != es.last().0);
    }
}

/// With unique keys, overwriting the tags of entry `i` in place is the same
/// as inserting its key anew into the map.
pub proof fn lemma_map_of_update(es: Seq<(Seq<char>, Seq<Seq<char>>)>, i: int, v: Seq<Seq<char>>)
    requires
        0 <= i < es.len(),
        forall|a: int, b: int| 0 <= a < b < es.len() ==> es[a].0 != es[b].0,
    ensures
        map_of(es.update(i, (es[i].0, v))) == map_of(es).insert(es[i].0, v),
    decreases es.len(),
{
    let es2 = es.update(i, (es[i].0, v));
    if i == es.len() - 1 {
        assert(es2.drop_last() =~= es.drop_last());
        assert(es2.last() == (es[i].0, v));
        assert(map_of(es2) =~= map_of(es).insert(es[i].0, v));
    } else {
        assert(es2.drop_last() =~= es.drop_last().update(i, (es[i].0, v)));
        assert(es2.last() == es.last());
        assert(forall|a: int, b: int| 0 <= a < b < es.drop_last().len()
            ==> es.drop_last()[a].0 != es.drop_last()[b].0);
        assert(es.drop_last()[i] == es[i]);
        lemma_map_of_update(es.drop_last(), i, v);
        assert(es[i].0 != es.last().0);
        assert(map_of(es2) =~= map_of(es).insert(es[i].0, v));
    }
}

/// With unique keys the map of `es` has exactly one key per entry.
pub proof fn lemma_map_of_dom_len(es: Seq<(Seq<char>, Seq<Seq<char>>)>)
    requires
        forall|a: int, b: int| 0 <= a < b < es.len() ==> es[a].0 != es[b].0,
    ensures
        map_of(es).dom().finite(),
        map_of(es).dom().len() == es.len(),
    decreases es.len(),
{
    if es.len() == 0 {
        broadcast use vstd::set::axiom_set_empty_len;

        assert(map_of(es).dom() =~= Set::<Seq<char>>::empty());
    } else {
        let head = es.drop_last();
        assert(forall|a: int, b: int| 0 <= a < b < head.len() ==> head[a].0 != head[b].0);
        lemma_map_of_dom_len(head);
        lemma_map_of_contains(head, es.last().0);
        assert(forall|i: int| 0 <= i < head.len() ==> head[i] == es[i]);
        assert(!map_of(head).contains_key(es.last().0));
        assert(map_of(es).dom() =~= map_of(head).dom().insert(es.last().0));
        vstd::set::axiom_set_insert_len(map_of(head).dom(), es.last().0);
    }
}

/// What a store file content loads to: the map of its entries when it has the
/// expected shape, and the empty map otherwise.
pub open spec fn load_spec(content: Seq<char>) -> Map<Seq<char>, Seq<Seq<char>>> {
    match codec::history_entries_of(content) {
        Some(es) => map_of(es),
        None => Map::empty(),
    }
}

/// The persistent mapping from clipboard text to its tag list.
pub struct ClipboardHistory {
    text_with_related_tags: Vec<(String, Vec<String>)>,
}

impl View for ClipboardHistory {
    type V = Map<Seq<char>, Seq<Seq<char>>>;

    open spec fn view(&self) -> Map<Seq<char>, Seq<Seq<char>>> {
        map_of(self.entries())
    }
}

impl ClipboardHistory {
    /// The entry sequence, in storage order.
    pub closed spec fn entries(&self) -> Seq<(Seq<char>, Seq<Seq<char>>)> {
        self.text_with_related_tags.deep_view()
    }

    /// Well-formed: no two entries share a key.
    pub open spec fn wf(&self) -> bool {
        forall|a: int, b: int| 0 <= a < b < self.entries().len()
            ==> self.entries()[a].0 != self.entries()[b].0
    }

    /// An empty history.
    pub fn new() -> (r: ClipboardHistory)
        ensures
            r.wf(),
            r@ == Map::<Seq<char>, Seq<Seq<char>>>::empty(),
    {
        let r = ClipboardHistory { text_with_related_tags: Vec::new() };
        proof {
            assert(r.entries() =~= Seq::<(Seq<char>, Seq<Seq<char>>)>::empty());
        }
        r
    }

    /// The number of stored entries: the size of the map.
    pub fn len(&self) -> (n: usize)
        requires
            self.wf(),
        ensures
            n == self.entries().len(),
            n == self@.dom().len(),
    {
        proof {
            lemma_map_of_dom_len(self.entries());
        }
        self.text_with_related_tags.len()
    }

    /// Inserts or overwrites the entry for `text`.
    pub fn put(&mut self, text: String, tags: Vec<String>)
        requires
            old(self).wf(),
        ensures
            final(self).wf(),
            final(self)@ == old(self)@.insert(text@, tags.deep_view()),
    {
        let ghost tv = text@;
        let ghost gv = tags.deep_view();
        let n = self.text_with_related_tags.len();
        let mut i: usize = 0;
        while i < n
            invariant
                self.entries() == old(self).entries(),
                self.wf(),
                n == self.text_with_related_tags@.len(),
                i <= n,
                tv == text@,
                gv == tags.deep_view(),
                forall|k: int| 0 <= k < i ==> self.entries()[k].0 != tv,
            decreases n - i,
        {
            let ghost es0 = old(self).entries();
            if text == self.text_with_related_tags[i].0 {
                proof {
                    assert(es0[i as int].0 == self.text_with_related_tags@[i as int].0@);
                    assert(es0[i as int].0 == tv);
                }
                self.text_with_related_tags[i] = (text, tags);
                proof {
                    assert(self.entries() =~= es0.update(i as int, (tv, gv)));
                    assert((tv, gv) == (es0[i as int].0, gv));
                    lemma_map_of_update(es0, i as int, gv);
                    assert(self@ == map_of(es0).insert(tv, gv));
                    assert(forall|k: int| 0 <= k < self.entries().len()
                        ==> self.entries()[k].0 == es0[k].0);
                }
                return;
            }
            proof {
                assert(es0[i as int].0 == self.text_with_related_tags@[i as int].0@);
            }
            i = i + 1;
        }
        let ghost es0 = old(self).entries();
        self.text_with_related_tags.push((text, tags));
        proof {
            assert(self.entries() =~= es0.push((tv, gv)));
            assert(self.entries().drop_last() =~= es0);
            assert(self.entries().last() == (tv, gv));
        }
    }

    /// The tags stored for `text`, if any.
    pub fn get_tags(&self, text: &str) -> (r: Option<Vec<String>>)
        requires
            self.wf(),
        ensures
            match r {
                Some(ts) => self@.contains_key(text@) && ts.deep_view() == self@[text@],
                None => !self@.contains_key(text@),
            },
    {
        let key: String = text.to_owned();
        let n = self.text_with_related_tags.len();
        let mut i: usize = 0;
        while i < n
            invariant
                self.wf(),
                key@ == text@,
                n == self.text_with_related_tags@.len(),
                i <= n,
                forall|k: int| 0 <= k < i ==> self.entries()[k].0 != text@,
            decreases n - i,
        {
            let e = &self.text_with_related_tags[i];
            if key == e.0 {
                proof {
                    assert(self.entries()[i as int].0 == text@);
                    lemma_map_of_index(self.entries(), i as int);
                }
                return Some(clone_tags(&e.1));
            }
            proof {
                assert(self.entries()[i as int].0 == self.text_with_related_tags@[i as int].0@);
            }
            i = i + 1;
        }
        proof {
            lemma_map_of_contains(self.entries(), text@);
        }
        None
    }

    /// Reads a store file's content: the entries under the well-known key if
    /// the content has the expected shape, and an empty history otherwise.
    pub fn load_from_store(content: &str) -> (r: ClipboardHistory)
        ensures
            r.wf(),
            r@ == load_spec(content@),
    {
        let mut h = ClipboardHistory::new();
        match codec::parse_store_file(content) {
            None => h,
            Some(es) => {
                let ghost esv = es.deep_view();
                let n = es.len();
                let mut i: usize = 0;
                while i < n
                    invariant
                        n == es@.len(),
                        i <= n,
                        esv == es.deep_view(),
                        h.wf(),
                        h@ == map_of(esv.take(i as int)),
                    decreases n - i,
                {
                    let e = &es[i];
                    let text = e.0.clone();
                    let tags = clone_tags(&e.1);
                    proof {
                        assert(esv[i as int] == (es@[i as int].0@, es@[i as int].1.deep_view()));
                    }
                    h.put(text, tags);
                    proof {
                        assert(esv.take(i as int + 1).drop_last() =~= esv.take(i as int));
                        assert(esv.take(i as int + 1).last() == esv[i as int]);
                    }
                    i = i + 1;
                }
                proof {
                    assert(esv.take(n as int) =~= esv);
                }
                h
            },
        }
    }

    /// Serializes the whole history as the store file content.
    pub fn save_to_string(&self) -> (r: String)
        ensures
            r@ == codec::store_file_of(self.entries()),
    {
        codec::serialize_store_file(&self.text_with_related_tags)
    }
}

/// A copy of a tag list.
fn clone_tags(v: &Vec<String>) -> (r: Vec<String>)
    ensures
        r.deep_view() == v.deep_view(),
{
    let mut out: Vec<String> = Vec::new();
    let n = v.len();
    let mut i: usize = 0;
    while i < n
        invariant
            n == v@.len(),
            i <= n,
            out@.len() == i,
            forall|k: int| 0 <= k < i ==> out@[k]@ == v@[k]@,
        decreases n - i,
    {
        let ghost out0 = out@;
        let c = v[i].clone();
        proof {
            assert(c@ == v@[i as int]@);
        }
        out.push(c);
        proof {
            assert(out@ == out0.push(c));
            assert(forall|k: int| 0 <= k < i ==> out@[k] == out0[k]);
        }
        i = i + 1;
    }
    proof {
        assert(out.deep_view() =~= v.deep_view());
    }
    out
}

/// Saving a history and loading what was saved gives back the same map.
pub proof fn lemma_save_load_round_trip(h: ClipboardHistory)
    ensures
        load_spec(codec::store_file_of(h.entries())) == h@,
{
    codec::lemma_store_round_trip(h.entries());
}

} // verus!
