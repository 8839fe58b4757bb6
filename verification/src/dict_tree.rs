//! A dictionary's words as a tree of letters: one edge per letter, so that a
//! text is the start of some word exactly where the tree has a path for it.

use vstd::prelude::*;
use crate::codec::{is_encoded, LETTERS};

verus! {

/// Whether `string` is the start of one of the words of `dict`.
pub open spec fn starts_word(dict: Seq<Vec<u8>>, string: Seq<u8>) -> bool {
    exists|i: int| 0 <= i < dict.len() && string.is_prefix_of(#[trigger] dict[i]@)
}

/// Whether every word of `dict` is made of letter codes.
pub open spec fn is_encoded_dict(dict: Seq<Vec<u8>>) -> bool {
    forall|i: int| 0 <= i < dict.len() ==> is_encoded(#[trigger] dict[i]@)
}

/// The texts of at least one letter that start a word of `dict`.
pub open spec fn word_starts(dict: Seq<Vec<u8>>) -> Set<Seq<u8>> {
    Set::new(|string: Seq<u8>| string.len() > 0 && starts_word(dict, string))
}

/// A representation of a dictionary's possible words as a tree of letters.
pub struct DictTree {
    head: Node,
}

impl View for DictTree {
    type V = Set<Seq<u8>>;

    /// The texts of at least one letter that the tree has a path for.
    closed spec fn view(&self) -> Set<Seq<u8>> {
        Set::new(|string: Seq<u8>| string.len() > 0 && self.head.has_path(string))
    }
}

impl DictTree {
    #[verifier::type_invariant]
    spec fn well_formed(self) -> bool {
        self.head.well_formed()
    }

    /// Creates a new tree from the words of a dictionary.
    pub fn new(dict: &Vec<Vec<u8>>) -> (tree: Self)
        requires
            is_encoded_dict(dict@),
        ensures
            tree@ == word_starts(dict@),
    {
        let mut head = Node::empty();
        let mut i: usize = 0;
        while i < dict.len()
            invariant
                i <= dict.len(),
                is_encoded_dict(dict@),
                head.well_formed(),
                forall|string: Seq<u8>|
                    head.has_path(string) <==> string.len() == 0 || starts_word(
                        dict@.take(i as int),
                        string,
                    ),
            decreases dict.len() - i,
        {
            head.add(&dict[i], 0);
            proof {
                let word = dict[i as int]@;
                let done = dict@.take(i as int);
                let more = dict@.take(i + 1);
                assert forall|string: Seq<u8>|
                    head.has_path(string) <==> string.len() == 0 || starts_word(more, string) by {
                    if starts_word(more, string) {
                        let k = choose|k: int|
                            0 <= k < more.len() && string.is_prefix_of(#[trigger] more[k]@);
                        assert(k < i ==> string.is_prefix_of(done[k]@));
                    }
                    if starts_word(done, string) {
                        let k = choose|k: int|
                            0 <= k < done.len() && string.is_prefix_of(#[trigger] done[k]@);
                        assert(string.is_prefix_of(more[k]@));
                    }
                    if string.is_prefix_of(word) {
                        assert(string.is_prefix_of(more[i as int]@));
                    }
                }
            }
            i += 1;
        }
        assert(dict@.take(i as int) =~= dict@);
        let tree = DictTree { head };
        tree
    }

    /// Finds out whether a text of at least one letter starts a word of the
    /// dictionary.
    pub fn contains(&self, string: &Vec<u8>) -> (found: bool)
        requires
            string.len() > 0,
        ensures
            found == self@.contains(string@),
    {
        proof {
            use_type_invariant(self);
            assert(string@.skip(0) =~= string@);
        }
        self.head.lookup(string, 0)
    }
}

struct Node {
    children: Vec<Option<Box<Node>>>,
}

impl Node {
    /// Every node of the tree has one place for each letter.
    spec fn well_formed(self) -> bool
        decreases self,
    {
        &&& self.children.len() == LETTERS
        &&& forall|i: int|
            0 <= i < self.children.len() ==> (#[trigger] self.children[i] matches Some(child)
                ==> child.well_formed())
    }

    /// Whether the edges from this node on spell `string`.
    spec fn has_path(self, string: Seq<u8>) -> bool
        decreases string.len(),
    {
        if string.len() == 0 {
            true
        } else if string[0] < self.children.len() {
            match self.children[string[0] as int] {
                Some(child) => child.has_path(string.drop_first()),
                None => false,
            }
        } else {
            false
        }
    }

    /// A node without edges.
    fn empty() -> (node: Node)
        ensures
            node.well_formed(),
            forall|string: Seq<u8>| node.has_path(string) <==> string.len() == 0,
    {
        let mut children: Vec<Option<Box<Node>>> = Vec::new();
        let mut i: u8 = 0;
        while i < LETTERS
            invariant
                i <= LETTERS,
                children.len() == i,
                forall|k: int| 0 <= k < i ==> children[k] is None,
            decreases LETTERS - i,
        {
            children.push(None);
            i += 1;
        }
        Node { children }
    }

    /// Finds out whether the letters of `string` from `start` on are a path
    /// of the tree.
    fn lookup(&self, string: &Vec<u8>, start: usize) -> (found: bool)
        requires
            self.well_formed(),
            start < string.len(),
        ensures
            found == self.has_path(string@.skip(start as int)),
        decreases string.len() - start,
    {
        let index = string[start] as usize;
        let ghost rest = string@.skip(start as int);
        assert(rest.drop_first() =~= string@.skip(start + 1));
        if index >= self.children.len() {
            false
        } else if start + 1 == string.len() {
            proof {
                if let Some(child) = self.children[index as int] {
                    assert(child.has_path(rest.drop_first()));
                }
            }
            self.children[index].is_some()
        } else {
            match &self.children[index] {
                Some(node) => node.lookup(string, start + 1),
                None => false,
            }
        }
    }

    /// Adds the letters of `string` from `start` on as a path of the tree.
    fn add(&mut self, string: &Vec<u8>, start: usize)
        requires
            old(self).well_formed(),
            is_encoded(string@),
            start <= string.len(),
        ensures
            final(self).well_formed(),
            forall|path: Seq<u8>|
                final(self).has_path(path) <==> old(self).has_path(path) || path.is_prefix_of(
                    string@.skip(start as int),
                ),
        decreases string.len() - start,
    {
        let ghost before = *self;
        let ghost rest = string@.skip(start as int);
        if start < string.len() {
            let index = string[start] as usize;
            match &mut self.children[index] {
                Some(node) => node.add(string, start + 1),
                None => {
                    let mut node = Node::empty();
                    node.add(string, start + 1);
                    self.children[index] = Some(Box::new(node));
                },
            }
            assert forall|path: Seq<u8>|
                self.has_path(path) <==> before.has_path(path) || path.is_prefix_of(rest) by {
                if path.len() > 0 {
                    if path[0] == index {
                        // The path goes on below the edge that the text took.
                        lemma_prefix_step(path, rest);
                        if let Some(child) = before.children[index as int] {
                            assert(before.has_path(path) == child.has_path(path.drop_first()));
                        }
                    } else {
                        // The path takes an edge that the text left alone.
                        assert(!path.is_prefix_of(rest));
                    }
                }
            }
        } else {
            assert forall|path: Seq<u8>|
                self.has_path(path) <==> before.has_path(path) || path.is_prefix_of(rest) by {
                assert(path.is_prefix_of(rest) ==> path.len() == 0);
            }
        }
    }
}

/// A text that shares its first letter with another is a start of it
/// exactly where the same holds of the two without their first letters.
proof fn lemma_prefix_step(path: Seq<u8>, whole: Seq<u8>)
    requires
        path.len() > 0,
        whole.len() > 0,
        path[0] == whole[0],
    ensures
        path.is_prefix_of(whole) <==> path.drop_first().is_prefix_of(whole.drop_first()),
{
    let tail = path.drop_first();
    let shorter = whole.drop_first();
    if path.is_prefix_of(whole) {
        assert(tail =~= shorter.subrange(0, tail.len() as int));
    }
    if tail.is_prefix_of(shorter) {
        assert forall|i: int| 0 <= i < path.len() implies path[i] == whole.subrange(
            0,
            path.len() as int,
        )[i] by {
            if i > 0 {
                assert(tail[i - 1] == shorter.subrange(0, tail.len() as int)[i - 1]);
            }
        }
    }
}

} // verus!
