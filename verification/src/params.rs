//! Command-line parameters for the single-shot mode: a folder and a query.

use vstd::prelude::*;
use vstd::string::StringExecFns;
use crate::chars::chars_of_string;

verus! {

/// The folder to index and the query to run, as handed on the command
/// line.
#[derive(Debug)]
pub struct Params {
    pub path: String,
    pub query: Vec<char>,
}

/// The remaining arguments joined with single spaces.
pub open spec fn spec_join(parts: Seq<Seq<char>>) -> Seq<char>
    decreases parts.len(),
{
    if parts.len() == 0 {
        Seq::empty()
    } else if parts.len() == 1 {
        parts[0]
    } else {
        spec_join(parts.drop_last()) + seq![' '] + parts.last()
    }
}

impl Params {
    /// Parse the argument list: the program name, then the folder, then
    /// the words of the query. Fewer than three arguments give back a
    /// usage line built around the program name.
    pub fn new(args: &Vec<String>) -> (r: Result<Params, String>)
        requires
            args@.len() >= 1,
        ensures
            match r {
                Ok(p) => args@.len() >= 3 && p.path@ == args@[1]@ && p.query@ == spec_join(
                    args.deep_view().skip(2),
                ),
                Err(e) => args@.len() < 3 && e@ == "Usage: "@ + args@[0]@
                    + " [filename] [query]"@,
            },
    {
        if args.len() < 3 {
            let msg = String::from_str("Usage: ").concat(args[0].as_str()).concat(
                " [filename] [query]",
            );
            return Err(msg);
        }
        let path = args[1].clone();
        let mut query: Vec<char> = Vec::new();
        let mut k: usize = 2;
        let ghost parts = args.deep_view().skip(2);
        proof {
            assert(parts.take(0) =~= Seq::<Seq<char>>::empty());
        }
        while k < args.len()
            invariant
                2 <= k <= args@.len(),
                args@.len() >= 3,
                parts == args.deep_view().skip(2),
                query@ == spec_join(parts.take(k - 2)),
            decreases args@.len() - k,
        {
            if k > 2 {
                query.push(' ');
            }
            let cs = chars_of_string(&args[k]);
            let mut i: usize = 0;
            let ghost q0 = query@;
            while i < cs.len()
                invariant
                    i <= cs@.len(),
                    cs@ == args@[k as int]@,
                    query@ == q0 + cs@.take(i as int),
                decreases cs@.len() - i,
            {
                query.push(cs[i]);
                proof {
                    assert(query@ =~= q0 + cs@.take(i as int + 1));
                }
                i = i + 1;
            }
            proof {
                assert(parts[k - 2] == args@[k as int]@);
                assert(cs@.take(cs@.len() as int) =~= cs@);
                if k > 2 {
                    assert(parts.take(k - 2 + 1).drop_last() =~= parts.take(k - 2));
                    assert(parts.take(k - 2 + 1).last() == parts[k - 2]);
                    assert(query@ =~= spec_join(parts.take(k - 2)) + seq![' '] + parts[k - 2]);
                } else {
                    assert(parts.take(1).len() == 1);
                    assert(parts.take(1)[0] == parts[0]);
                    assert(query@ =~= parts[0]);
                }
            }
            k = k + 1;
        }
        proof {
            assert(parts.take(args@.len() - 2) =~= parts);
        }
        Ok(Params { path, query })
    }
}

} // verus!
