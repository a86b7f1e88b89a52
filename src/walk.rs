use vstd::prelude::*;
use crate::codec::{decode_long_spec, reverse_parse_label};
use crate::error::NameError;
use crate::hash::root_hash;
use crate::record::NameStruct;
use crate::text::{chars_of, push_all, same_chars, string_from_chars};

verus! {

/// The most labels a full name may have; a longer parent chain is refused.
pub const MAX_NAME_DEPTH: usize = 32;

/// Labels joined by dots.
pub open spec fn dotted(ls: Seq<Seq<char>>) -> Seq<char>
    decreases ls.len(),
{
    if ls.len() == 0 {
        seq![]
    } else if ls.len() == 1 {
        ls[0]
    } else {
        dotted(ls.drop_last()) + seq!['.'] + ls.last()
    }
}

/// What the caller does after a step of the walk.
pub enum WalkStep {
    /// Fetch the name record with this identifier and hand it to `step`.
    Fetch(String),
    /// The walk reached the root; this is the full name.
    Done(String),
}

/// The walk from a name record up its chain of parents to the root, which
/// gathers the labels, leaf first.
pub struct NameWalk {
    labels: Vec<Vec<char>>,
}

impl View for NameWalk {
    type V = Seq<Seq<char>>;

    closed spec fn view(&self) -> Seq<Seq<char>> {
        self.labels@.map_values(|l: Vec<char>| l@)
    }
}

impl NameWalk {
    /// A walk that has read no record yet.
    pub fn new() -> (w: NameWalk)
        ensures
            w@ == Seq::<Seq<char>>::empty(),
    {
        let w = NameWalk { labels: Vec::new() };
        assert(w@ =~= Seq::<Seq<char>>::empty());
        w
    }

    /// Takes in the next record of the chain: its label is unpacked and
    /// added; at the root (parent `0field`) the walk is done and yields the
    /// labels joined by dots, leaf first; otherwise it asks for the parent,
    /// unless the chain already holds `MAX_NAME_DEPTH` labels.
    pub fn step(&mut self, rec: &NameStruct) -> (r: Result<WalkStep, NameError>)
        ensures
            match decode_long_spec(rec.name@) {
                Err(e) => r == Err::<WalkStep, NameError>(e) && final(self)@ == old(self)@,
                Ok(label) => final(self)@ == old(self)@.push(label) && if rec.parent@ == root_hash() {
                    r matches Ok(WalkStep::Done(n)) && n@ == dotted(final(self)@)
                } else if final(self)@.len() >= MAX_NAME_DEPTH {
                    r == Err::<WalkStep, NameError>(NameError::ChainTooDeep)
                } else {
                    r matches Ok(WalkStep::Fetch(p)) && p@ == rec.parent@
                },
            },
    {
        let label = reverse_parse_label(rec.name[0], rec.name[1], rec.name[2], rec.name[3]);
        assert(rec.name@ =~= seq![rec.name[0], rec.name[1], rec.name[2], rec.name[3]]);
        let label = match label {
            Ok(l) => l,
            Err(e) => return Err(e),
        };
        let ghost before = self@;
        self.labels.push(chars_of(label.as_str()));
        assert(self@ =~= before.push(label@));
        let parent = chars_of(rec.parent.as_str());
        let root = vec!['0', 'f', 'i', 'e', 'l', 'd'];
        assert(root@ =~= root_hash());
        if same_chars(&parent, &root) {
            let mut out: Vec<char> = Vec::new();
            let mut i: usize = 0;
            while i < self.labels.len()
                invariant
                    i <= self.labels@.len(),
                    out@ == dotted(self@.subrange(0, i as int)),
                decreases self.labels@.len() - i,
            {
                if i > 0 {
                    out.push('.');
                }
                push_all(&mut out, &self.labels[i]);
                proof {
                    assert(self@.subrange(0, i + 1).drop_last() =~= self@.subrange(0, i as int));
                    assert(self@[i as int] == self.labels@[i as int]@);
                    if i == 0 {
                        assert(out@ =~= dotted(self@.subrange(0, 1)));
                    } else {
                        assert(out@ =~= dotted(self@.subrange(0, i + 1)));
                    }
                }
                i = i + 1;
            }
            assert(self@.subrange(0, i as int) =~= self@);
            Ok(WalkStep::Done(string_from_chars(&out)))
        } else if self.labels.len() >= MAX_NAME_DEPTH {
            Err(NameError::ChainTooDeep)
        } else {
            Ok(WalkStep::Fetch(string_from_chars(&parent)))
        }
    }
}

} // verus!
