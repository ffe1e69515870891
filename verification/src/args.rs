//! Named arguments for message formatting, as plain string pairs.
//!
//! The engine formats with these values; the library only needs to know
//! which name maps to which value, later settings overriding earlier ones.

use vstd::prelude::*;

verus! {

/// The mapping held by a list of argument pairs: each pair inserted in
/// order, a later pair overriding an earlier one with the same name.
pub open spec fn args_map(pairs: Seq<(String, String)>) -> Map<Seq<char>, Seq<char>>
    decreases pairs.len(),
{
    if pairs.len() == 0 {
        Map::empty()
    } else {
        args_map(pairs.drop_last()).insert(pairs.last().0@, pairs.last().1@)
    }
}

/// Named formatting arguments: a mapping from variable names to string
/// values.
pub struct TranslationArgs {
    pairs: Vec<(String, String)>,
}

impl View for TranslationArgs {
    type V = Map<Seq<char>, Seq<char>>;

    closed spec fn view(&self) -> Map<Seq<char>, Seq<char>> {
        args_map(self.pairs@)
    }
}

impl TranslationArgs {
    /// No arguments.
    pub fn new() -> (r: Self)
        ensures
            r@ == Map::<Seq<char>, Seq<char>>::empty(),
    {
        TranslationArgs { pairs: Vec::new() }
    }

    /// Binds a name to a value, overriding an earlier binding of the same
    /// name.
    pub fn set(&mut self, key: &str, value: &str)
        ensures
            final (self)@ == old(self)@.insert(key@, value@),
    {
        let ghost before = self.pairs@;
        self.pairs.push((key.to_owned(), value.to_owned()));
        proof {
            assert(self.pairs@.drop_last() =~= before);
        }
    }

    /// The raw pairs, in the order they were set.
    pub(crate) fn entries(&self) -> &Vec<(String, String)> {
        &self.pairs
    }
}

/// Merges two argument sets: every binding of both, the overriding set
/// winning on names bound by each.
pub fn merge_args(local_args: &TranslationArgs, overriding_args: &TranslationArgs) -> (r:
    TranslationArgs)
    ensures
        r@ == local_args@.union_prefer_right(overriding_args@),
{
    let mut r = TranslationArgs::new();
    let n = local_args.pairs.len();
    let mut i: usize = 0;
    while i < n
        invariant
            i <= n,
            n == local_args.pairs.len(),
            r@ == args_map(local_args.pairs@.take(i as int)),
        decreases n - i,
    {
        proof {
            assert(local_args.pairs@.take(i as int + 1).drop_last() =~= local_args.pairs@.take(
                i as int,
            ));
        }
        r.set(local_args.pairs[i].0.as_str(), local_args.pairs[i].1.as_str());
        i += 1;
    }
    proof {
        assert(local_args.pairs@.take(n as int) =~= local_args.pairs@);
        assert(r@ =~= local_args@.union_prefer_right(args_map(
            overriding_args.pairs@.take(0),
        )));
    }
    let m = overriding_args.pairs.len();
    let mut j: usize = 0;
    while j < m
        invariant
            j <= m,
            m == overriding_args.pairs.len(),
            r@ == local_args@.union_prefer_right(args_map(overriding_args.pairs@.take(j as int))),
        decreases m - j,
    {
        proof {
            assert(overriding_args.pairs@.take(j as int + 1).drop_last()
                =~= overriding_args.pairs@.take(j as int));
        }
        let ghost prev = r@;
        r.set(overriding_args.pairs[j].0.as_str(), overriding_args.pairs[j].1.as_str());
        proof {
            let ko = overriding_args.pairs@[j as int].0@;
            let vo = overriding_args.pairs@[j as int].1@;
            assert(r@ =~= local_args@.union_prefer_right(
                args_map(overriding_args.pairs@.take(j as int)).insert(ko, vo),
            ));
        }
        j += 1;
    }
    proof {
        assert(overriding_args.pairs@.take(m as int) =~= overriding_args.pairs@);
    }
    r
}

} // verus!
