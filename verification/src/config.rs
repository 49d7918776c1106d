//! Caller-supplied configuration: the vocabularies of "todo" and "done"
//! state keywords. Membership is case-sensitive exact equality; empty
//! vocabularies simply disable keyword recognition.

use vstd::prelude::*;

use crate::text::strs;

verus! {

pub struct ParseConfig {
    /// Keywords naming still-open states.
    pub todo_keywords: Vec<String>,
    /// Keywords naming finished states.
    pub done_keywords: Vec<String>,
}

impl ParseConfig {
    pub open spec fn todo(&self) -> Seq<Seq<char>> {
        strs(self.todo_keywords@)
    }

    pub open spec fn done(&self) -> Seq<Seq<char>> {
        strs(self.done_keywords@)
    }

    /// Case-sensitive membership of `w` in either vocabulary.
    pub fn contains_keyword(&self, w: &String) -> (r: bool)
        ensures
            r == (self.todo().contains(w@) || self.done().contains(w@)),
    {
        vec_contains(&self.todo_keywords, w) || vec_contains(&self.done_keywords, w)
    }
}

fn vec_contains(v: &Vec<String>, w: &String) -> (r: bool)
    ensures
        r == strs(v@).contains(w@),
{
    let mut i: usize = 0;
    while i < v.len()
        invariant
            i <= v@.len(),
            forall|j: int| 0 <= j < i ==> v@[j]@ != w@,
        decreases v@.len() - i,
    {
        if v[i] == *w {
            proof {
                assert(strs(v@)[i as int] == v@[i as int]@);
            }
            return true;
        }
        i = i + 1;
    }
    proof {
        assert forall|j: int| 0 <= j < strs(v@).len() implies strs(v@)[j] != w@ by {
            assert(strs(v@)[j] == v@[j]@);
        }
    }
    false
}

impl Default for ParseConfig {
    /// The stock vocabulary: one "todo" keyword `TODO`, one "done" keyword
    /// `DONE`.
    fn default() -> (r: Self)
        ensures
            r.todo() == seq!["TODO"@],
            r.done() == seq!["DONE"@],
    {
        let todo_keywords = vec!["TODO".to_owned()];
        let done_keywords = vec!["DONE".to_owned()];
        let r = ParseConfig { todo_keywords, done_keywords };
        proof {
            assert(r.todo() =~= seq!["TODO"@]);
            assert(r.done() =~= seq!["DONE"@]);
        }
        r
    }
}

} // verus!
