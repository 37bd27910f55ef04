//! What the graph loaders share with the library: the error type they report
//! construction failures through, and the path-joining helper. The file and
//! buffered-reader plumbing itself stays outside the library.

use vstd::prelude::*;
use vstd::string::StringExecFns;

verus! {

/// An error raised while loading graph data, carrying its description.
#[derive(Clone, Debug)]
pub struct LoadError {
    err_msg: String,
}

impl LoadError {
    /// The carried description.
    pub closed spec fn msg(&self) -> Seq<char> {
        self.err_msg@
    }

    /// Wrap a description.
    pub fn new(err_msg: String) -> (r: Self)
        ensures
            r.msg() == err_msg@,
    {
        LoadError { err_msg }
    }

    /// Read the description back.
    pub fn message(&self) -> (r: &String)
        ensures
            r@ == self.msg(),
    {
        &self.err_msg
    }
}

/// The components joined with a separating slash, in order.
pub open spec fn joined_path(cs: Seq<Seq<char>>) -> Seq<char>
    decreases cs.len(),
{
    if cs.len() == 0 {
        Seq::<char>::empty()
    } else if cs.len() == 1 {
        cs[0]
    } else {
        joined_path(cs.drop_last()) + seq!['/'] + cs.last()
    }
}

/// Join relative path components with a slash between each pair.
pub fn create_path(components: &Vec<String>) -> (r: String)
    ensures
        r@ == joined_path(components@.map_values(|s: String| s@)),
{
    let ghost cs = components@.map_values(|s: String| s@);
    let mut r = String::new();
    let mut i: usize = 0;
    while i < components.len()
        invariant
            cs == components@.map_values(|s: String| s@),
            0 <= i <= components@.len(),
            r@ == joined_path(cs.take(i as int)),
        decreases components@.len() - i,
    {
        if i > 0 {
            r.append("/");
            proof {
                reveal_strlit("/");
                assert(("/")@ =~= seq!['/']);
            }
        }
        r.append(components[i].as_str());
        proof {
            assert(cs.take(i as int + 1).drop_last() =~= cs.take(i as int));
            assert(cs.take(i as int + 1).last() == cs[i as int]);
            if i == 0 {
                assert(r@ =~= joined_path(cs.take(1)));
            } else {
                assert(r@ =~= joined_path(cs.take(i as int + 1)));
            }
        }
        i = i + 1;
    }
    proof {
        assert(cs.take(cs.len() as int) =~= cs);
    }
    r
}

} // verus!
