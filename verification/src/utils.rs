//! Small helpers of the command line.

use vstd::prelude::*;
use vstd::string::StrSliceExecFns;
use vstd::string::StringExecFns;

verus! {

/// A line of input as an instance name: line feeds dropped, each space
/// turned into an underscore, everything else kept.
pub open spec fn instance_name_of(line: Seq<char>) -> Seq<char>
    decreases line.len(),
{
    if line.len() == 0 {
        Seq::empty()
    } else if line.last() == '\n' {
        instance_name_of(line.drop_last())
    } else if line.last() == ' ' {
        instance_name_of(line.drop_last()).push('_')
    } else {
        instance_name_of(line.drop_last()).push(line.last())
    }
}

/// Turns the line that the user typed into an instance name.
pub fn username_take(line: &str) -> (instance_name: String)
    ensures
        instance_name@ == instance_name_of(line@),
{
    let len: usize = line.unicode_len();
    let mut instance_name = String::new();
    let mut i: usize = 0;
    proof {
        reveal_strlit("_");
        assert(line@.take(0) =~= Seq::<char>::empty());
    }
    while i < len
        invariant
            i <= len,
            len == line@.len(),
            "_"@ == seq!['_'],
            instance_name@ == instance_name_of(line@.take(i as int)),
        decreases len - i,
    {
        let c = line.get_char(i);
        proof {
            assert(line@.take(i + 1).drop_last() =~= line@.take(i as int));
            assert(line@.take(i + 1).last() == c);
        }
        if c == '\n' {
        } else if c == ' ' {
            instance_name.append("_");
            assert(instance_name@ =~= instance_name_of(line@.take(i as int)).push('_'));
        } else {
            instance_name.append(line.substring_char(i, i + 1));
            assert(line@.subrange(i as int, i + 1) =~= seq![c]);
            assert(instance_name@ =~= instance_name_of(line@.take(i as int)).push(c));
        }
        i += 1;
    }
    assert(line@.take(len as int) =~= line@);
    instance_name
}

} // verus!
