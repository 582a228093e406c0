//! The open documents, and what the server does when the editor opens,
//! changes or closes one.
use vstd::prelude::*;

verus! {

/// The text of each open document, keyed by its URI.
pub struct DocumentStore {
    entries: Vec<(String, String)>,
    contents: Ghost<Map<Seq<char>, Seq<char>>>,
}

impl View for DocumentStore {
    type V = Map<Seq<char>, Seq<char>>;

    closed spec fn view(&self) -> Map<Seq<char>, Seq<char>> {
        self.contents@
    }
}

/// The documents after the editor opens `uri` with `text`.
pub open spec fn after_open(
    docs: Map<Seq<char>, Seq<char>>,
    uri: Seq<char>,
    text: Seq<char>,
) -> Map<Seq<char>, Seq<char>> {
    docs.insert(uri, text)
}

/// The documents after the editor reports the full-text `changes` of `uri`:
/// the first change becomes the text of `uri`, opened or not; no change
/// leaves everything as it was.
pub open spec fn after_change(
    docs: Map<Seq<char>, Seq<char>>,
    uri: Seq<char>,
    changes: Seq<Seq<char>>,
) -> Map<Seq<char>, Seq<char>> {
    if changes.len() > 0 {
        docs.insert(uri, changes[0])
    } else {
        docs
    }
}

/// The documents after the editor closes `uri`.
pub open spec fn after_close(docs: Map<Seq<char>, Seq<char>>, uri: Seq<char>) -> Map<
    Seq<char>,
    Seq<char>,
> {
    docs.remove(uri)
}

/// A syntax check that the server owes: the text to check, and the
/// document whose diagnostics it gives.
#[derive(Debug)]
pub struct SyntaxCheck {
    pub uri: String,
    pub text: String,
}

/// The entries hold each key at most once, and hold exactly the keys and
/// texts of `contents`.
spec fn entries_match(entries: Seq<(String, String)>, contents: Map<Seq<char>, Seq<char>>) -> bool {
    &&& forall|i: int, j: int|
        0 <= i < j < entries.len() ==> (#[trigger] entries[i]).0@ != (#[trigger] entries[j]).0@
    &&& forall|i: int|
        0 <= i < entries.len() ==> #[trigger] contents.contains_key(entries[i].0@)
            && contents[entries[i].0@] == entries[i].1@
    &&& forall|k: Seq<char>|
        #[trigger] contents.contains_key(k) ==> exists|i: int|
            0 <= i < entries.len() && (#[trigger] entries[i]).0@ == k
}

impl DocumentStore {
    #[verifier::type_invariant]
    spec fn inv(self) -> bool {
        entries_match(self.entries@, self.contents@)
    }

    /// An empty store.
    pub fn new() -> (s: DocumentStore)
        ensures
            s@ == Map::<Seq<char>, Seq<char>>::empty(),
    {
        DocumentStore { entries: Vec::new(), contents: Ghost(Map::empty()) }
    }

    /// The position of `uri` among the entries.
    fn find(&self, uri: &String) -> (r: Option<usize>)
        ensures
            r matches Some(i) ==> i < self.entries@.len() && self.entries@[i as int].0@ == uri@,
            r is None ==> !self@.contains_key(uri@),
    {
        proof {
            use_type_invariant(self);
        }
        let mut i: usize = 0;
        while i < self.entries.len()
            invariant
                i <= self.entries@.len(),
                forall|j: int| 0 <= j < i ==> (#[trigger] self.entries@[j]).0@ != uri@,
            decreases self.entries.len() - i,
        {
            if self.entries[i].0 == *uri {
                return Some(i);
            }
            i += 1;
        }
        None
    }

    /// Whether `uri` is open.
    pub fn contains_key(&self, uri: &String) -> (b: bool)
        ensures
            b == self@.contains_key(uri@),
    {
        proof {
            use_type_invariant(self);
        }
        self.find(uri).is_some()
    }

    /// The text of `uri`, if it is open.
    pub fn get(&self, uri: &String) -> (r: Option<&String>)
        ensures
            r matches Some(t) ==> self@.contains_key(uri@) && t@ == self@[uri@],
            r is None ==> !self@.contains_key(uri@),
    {
        proof {
            use_type_invariant(self);
        }
        match self.find(uri) {
            Some(i) => {
                proof {
                    assert(self.contents@.contains_key(self.entries@[i as int].0@));
                }
                Some(&self.entries[i].1)
            },
            None => None,
        }
    }

    /// Whether no document is open.
    pub fn is_empty(&self) -> (b: bool)
        ensures
            b == (self@ == Map::<Seq<char>, Seq<char>>::empty()),
    {
        proof {
            use_type_invariant(self);
        }
        proof {
            if self.entries.len() == 0 {
                assert(self.contents@ =~= Map::<Seq<char>, Seq<char>>::empty());
            } else {
                assert(self.contents@.contains_key(self.entries@[0].0@));
                assert(!Map::<Seq<char>, Seq<char>>::empty().contains_key(self.entries@[0].0@));
            }
        }
        self.entries.len() == 0
    }

    /// Sets the text of `uri`, opening it if it is not open (`HashMap::insert`).
    pub fn insert(&mut self, uri: String, text: String)
        ensures
            final(self)@ == old(self)@.insert(uri@, text@),
    {
        proof {
            use_type_invariant(&*self);
        }
        let ghost new_contents = self.contents@.insert(uri@, text@);
        let found = self.find(&uri);
        let mut store = DocumentStore::new();
        std::mem::swap(self, &mut store);
        proof {
            use_type_invariant(&store);
        }
        let DocumentStore { mut entries, contents } = store;
        let ghost old_entries = entries@;
        let ghost old_contents = contents@;
        let ghost key = uri@;
        let ghost value = text@;
        match found {
            Some(i) => {
                entries.set(i, (uri, text));
                proof {
                    assert forall|j: int| 0 <= j < entries@.len() implies (#[trigger] entries@[j]).0@
                        == old_entries[j].0@ by {
                    }
                    assert forall|a: int, b: int|
                        0 <= a < b < entries@.len() implies (#[trigger] entries@[a]).0@
                            != (#[trigger] entries@[b]).0@ by {
                        assert(entries@[a].0@ == old_entries[a].0@);
                        assert(entries@[b].0@ == old_entries[b].0@);
                    }
                    assert forall|j: int|
                        0 <= j < entries@.len() implies #[trigger] new_contents.contains_key(
                        entries@[j].0@,
                    ) && new_contents[entries@[j].0@] == entries@[j].1@ by {
                        if j != i {
                            assert(old_contents.contains_key(old_entries[j].0@));
                        }
                    }
                    assert forall|k: Seq<char>| #[trigger] new_contents.contains_key(k) implies exists|
                        j: int,
                    | 0 <= j < entries@.len() && (#[trigger] entries@[j]).0@ == k by {
                        if k != key {
                            assert(old_contents.contains_key(k));
                            let j = choose|j: int| 0 <= j < old_entries.len() && (#[trigger] old_entries[j]).0@ == k;
                            assert(entries@[j].0@ == k);
                        } else {
                            assert(entries@[i as int].0@ == k);
                        }
                    }
                }
            },
            None => {
                entries.push((uri, text));
                proof {
                    assert forall|j: int| 0 <= j < old_entries.len() implies (#[trigger] old_entries[j]).0@
                        != key by {
                        assert(old_contents.contains_key(old_entries[j].0@));
                    }
                    assert forall|a: int, b: int|
                        0 <= a < b < entries@.len() implies (#[trigger] entries@[a]).0@
                            != (#[trigger] entries@[b]).0@ by {
                        assert(entries@[a] == old_entries[a]);
                        if b < old_entries.len() {
                            assert(entries@[b] == old_entries[b]);
                        }
                    }
                    assert forall|j: int|
                        0 <= j < entries@.len() implies #[trigger] new_contents.contains_key(
                        entries@[j].0@,
                    ) && new_contents[entries@[j].0@] == entries@[j].1@ by {
                        if j < old_entries.len() {
                            assert(entries@[j] == old_entries[j]);
                            assert(old_contents.contains_key(old_entries[j].0@));
                        }
                    }
                    assert forall|k: Seq<char>| #[trigger] new_contents.contains_key(k) implies exists|
                        j: int,
                    | 0 <= j < entries@.len() && (#[trigger] entries@[j]).0@ == k by {
                        if k != key {
                            assert(old_contents.contains_key(k));
                            let j = choose|j: int| 0 <= j < old_entries.len() && (#[trigger] old_entries[j]).0@ == k;
                            assert(entries@[j] == old_entries[j]);
                        } else {
                            assert(entries@[old_entries.len() as int].0@ == k);
                        }
                    }
                }
            },
        }
        proof {
            assert(entries_match(entries@, new_contents));
        }
        *self = DocumentStore { entries, contents: Ghost(new_contents) };
    }

    /// Forgets `uri` (`HashMap::remove`).
    pub fn remove(&mut self, uri: &String)
        ensures
            final(self)@ == old(self)@.remove(uri@),
    {
        proof {
            use_type_invariant(&*self);
        }
        let ghost new_contents = self.contents@.remove(uri@);
        if let Some(i) = self.find(uri) {
            let mut store = DocumentStore::new();
            std::mem::swap(self, &mut store);
            proof {
                use_type_invariant(&store);
            }
            let DocumentStore { mut entries, contents } = store;
            let ghost old_entries = entries@;
            let ghost old_contents = contents@;
            let ghost key = uri@;
            entries.remove(i);
            proof {
                assert forall|j: int| 0 <= j < entries@.len() implies (#[trigger] entries@[j])
                    == old_entries[if j < i { j } else { j + 1 }] by {
                }
                assert forall|j: int|
                    0 <= j < entries@.len() implies #[trigger] new_contents.contains_key(
                    entries@[j].0@,
                ) && new_contents[entries@[j].0@] == entries@[j].1@ by {
                    let oj = if j < i { j } else { j + 1 };
                    assert(entries@[j] == old_entries[oj]);
                    assert(old_contents.contains_key(old_entries[oj].0@));
                    assert(old_entries[oj].0@ != old_entries[i as int].0@);
                }
                assert forall|k: Seq<char>| #[trigger] new_contents.contains_key(k) implies exists|
                    j: int,
                | 0 <= j < entries@.len() && (#[trigger] entries@[j]).0@ == k by {
                    assert(old_contents.contains_key(k));
                    let oj = choose|j: int| 0 <= j < old_entries.len() && (#[trigger] old_entries[j]).0@ == k;
                    assert(oj != i);
                    let j = if oj < i { oj } else { oj - 1 };
                    assert(entries@[j] == old_entries[oj]);
                }
                assert forall|a: int, b: int|
                    0 <= a < b < entries@.len() implies (#[trigger] entries@[a]).0@
                        != (#[trigger] entries@[b]).0@ by {
                    let oa = if a < i { a } else { a + 1 };
                    let ob = if b < i { b } else { b + 1 };
                    assert(entries@[a] == old_entries[oa]);
                    assert(entries@[b] == old_entries[ob]);
                }
            }
            *self = DocumentStore { entries, contents: Ghost(new_contents) };
        }
    }
}


impl DocumentStore {
    /// The editor opened `uri` with `text`: the store keeps the text, and
    /// the text is to be checked.
    pub fn did_open(&mut self, uri: String, text: String) -> (check: SyntaxCheck)
        ensures
            final(self)@ == after_open(old(self)@, uri@, text@),
            check.uri@ == uri@,
            check.text@ == text@,
    {
        let check = SyntaxCheck { uri: uri.clone(), text: text.clone() };
        self.insert(uri, text);
        check
    }

    /// The editor sent the full-text `changes` of `uri`: the first one
    /// becomes the text of `uri` and is to be checked; with no change,
    /// nothing happens.
    pub fn did_change(&mut self, uri: String, changes: Vec<String>) -> (check: Option<SyntaxCheck>)
        ensures
            final(self)@ == after_change(old(self)@, uri@, changes.deep_view()),
            changes.len() == 0 <==> check is None,
            check matches Some(c) ==> c.uri@ == uri@ && c.text@ == changes@[0]@,
    {
        if changes.len() == 0 {
            return None;
        }
        let text = changes[0].clone();
        let check = SyntaxCheck { uri: uri.clone(), text: text.clone() };
        self.insert(uri, text);
        Some(check)
    }

    /// The editor closed `uri`: the store forgets it.
    pub fn did_close(&mut self, uri: &String)
        ensures
            final(self)@ == after_close(old(self)@, uri@),
    {
        self.remove(uri);
    }
}

/// A document just opened reads back as the text it was opened with.
pub proof fn law_open_then_read(docs: Map<Seq<char>, Seq<char>>, uri: Seq<char>, text: Seq<char>)
    ensures
        after_open(docs, uri, text).contains_key(uri),
        after_open(docs, uri, text)[uri] == text,
{
}

/// A full-text change of a document, opened or not, reads back as the first change.
pub proof fn law_change_then_read(
    docs: Map<Seq<char>, Seq<char>>,
    uri: Seq<char>,
    changes: Seq<Seq<char>>,
)
    requires
        changes.len() > 0,
    ensures
        after_change(docs, uri, changes).contains_key(uri),
        after_change(docs, uri, changes)[uri] == changes[0],
{
}

/// A change event without any change leaves the documents as they were.
pub proof fn law_empty_change_is_noop(docs: Map<Seq<char>, Seq<char>>, uri: Seq<char>)
    ensures
        after_change(docs, uri, Seq::empty()) == docs,
{
}

/// A closed document is no longer there.
pub proof fn law_close_forgets(docs: Map<Seq<char>, Seq<char>>, uri: Seq<char>)
    ensures
        !after_close(docs, uri).contains_key(uri),
{
}

/// Closing a document that is not open changes nothing.
pub proof fn law_close_unknown_is_noop(docs: Map<Seq<char>, Seq<char>>, uri: Seq<char>)
    requires
        !docs.contains_key(uri),
    ensures
        after_close(docs, uri) == docs,
{
    assert(docs.remove(uri) =~= docs);
}

/// Opening a document that was not open and then closing it restores the documents.
pub proof fn law_open_then_close_restores(
    docs: Map<Seq<char>, Seq<char>>,
    uri: Seq<char>,
    text: Seq<char>,
)
    requires
        !docs.contains_key(uri),
    ensures
        after_close(after_open(docs, uri, text), uri) == docs,
{
    assert(docs.insert(uri, text).remove(uri) =~= docs);
}

/// Of two successive writes of one document, the later one is what stays.
pub proof fn law_last_write_wins(
    docs: Map<Seq<char>, Seq<char>>,
    uri: Seq<char>,
    first: Seq<char>,
    second: Seq<char>,
)
    ensures
        after_open(after_open(docs, uri, first), uri, second) == after_open(docs, uri, second),
{
    assert(docs.insert(uri, first).insert(uri, second) =~= docs.insert(uri, second));
}

/// Opening, changing or closing one document leaves every other document as it was.
pub proof fn law_other_documents_untouched(
    docs: Map<Seq<char>, Seq<char>>,
    uri: Seq<char>,
    other: Seq<char>,
    text: Seq<char>,
    changes: Seq<Seq<char>>,
)
    requires
        other != uri,
    ensures
        after_open(docs, uri, text).contains_key(other) == docs.contains_key(other),
        after_open(docs, uri, text)[other] == docs[other],
        after_change(docs, uri, changes).contains_key(other) == docs.contains_key(other),
        after_change(docs, uri, changes)[other] == docs[other],
        after_close(docs, uri).contains_key(other) == docs.contains_key(other),
        after_close(docs, uri)[other] == docs[other],
{
}

} // verus!
