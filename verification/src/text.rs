//! Line cleanup for candidate input: strips the trailing newline characters
//! that reading a line leaves behind.
use vstd::prelude::*;
use vstd::string::StrSliceExecFns;

verus! {

/// `s` with every trailing `'\n'` removed.
pub open spec fn trim_newlines(s: Seq<char>) -> Seq<char>
    decreases s.len(),
{
    if s.len() > 0 && s.last() == '\n' {
        trim_newlines(s.drop_last())
    } else {
        s
    }
}

proof fn lemma_trim_suffix(s: Seq<char>, keep: int)
    requires
        0 <= keep <= s.len(),
        forall|k: int| keep <= k < s.len() ==> s[k] == '\n',
    ensures
        trim_newlines(s) == trim_newlines(s.subrange(0, keep)),
    decreases s.len(),
{
    if keep == s.len() {
        assert(s.subrange(0, keep) =~= s);
    } else {
        assert(s.last() == '\n');
        assert(s.drop_last() =~= s.subrange(0, s.len() - 1));
        lemma_trim_suffix(s.drop_last(), keep);
        assert(s.drop_last().subrange(0, keep) =~= s.subrange(0, keep));
    }
}

/// Removes every trailing newline character from `s`, leaving the rest of
/// the line untouched.
pub fn trim(s: &mut String)
    ensures
        final(s)@ == trim_newlines(old(s)@),
{
    let cv = crate::matching::chars_of(s.as_str());
    let mut keep: usize = cv.len();
    while keep > 0 && cv[keep - 1] == '\n'
        invariant
            keep <= cv@.len(),
            cv@ == s@,
            s@ == old(s)@,
            forall|k: int| keep <= k < s@.len() ==> s@[k] == '\n',
        decreases keep,
    {
        keep -= 1;
    }
    proof {
        lemma_trim_suffix(s@, keep as int);
        if keep > 0 {
            assert(s@.subrange(0, keep as int).last() == s@[keep - 1]);
        }
        assert(trim_newlines(s@.subrange(0, keep as int)) == s@.subrange(0, keep as int));
    }
    let t = s.as_str().substring_char(0, keep).to_owned();
    *s = t;
}

} // verus!
