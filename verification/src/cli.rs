//! The decisions of the command-line tool: the name of a converted file and
//! the arguments of a merge.
use vstd::prelude::*;
use vstd::string::{StrSliceExecFns, StringExecFns};
use crate::repl::word_is;

verus! {

/// Errors of the command-line tool.
#[derive(Debug)]
pub enum CliErrors {
    /// The arguments cannot be acted on; the message says why.
    ArgumentError(String),
}

/// `s` with every match of `pat` replaced by `with`, matches found from the
/// left without overlapping, as `str::replace` finds them.
pub open spec fn replace_all(s: Seq<char>, pat: Seq<char>, with: Seq<char>) -> Seq<char>
    decreases s.len(),
{
    if pat.len() == 0 || s.len() < pat.len() {
        s
    } else if s.take(pat.len() as int) == pat {
        with + replace_all(s.skip(pat.len() as int), pat, with)
    } else {
        seq![s[0]] + replace_all(s.drop_first(), pat, with)
    }
}

pub open spec fn bsp_extension() -> Seq<char> {
    seq!['.', 'b', 's', 'p']
}

pub open spec fn anise_extension() -> Seq<char> {
    seq!['.', 'a', 'n', 'i', 's', 'e']
}

/// The name of the ANISE file that an SPK file converts to: every `.bsp`
/// in the name becomes `.anise`.
pub fn anise_file_name(spk_file_name: &str) -> (r: String)
    ensures
        r@ == replace_all(spk_file_name@, bsp_extension(), anise_extension()),
{
    let s = Ghost(spk_file_name@);
    let n: usize = spk_file_name.unicode_len();
    let bsp: Vec<char> = vec!['.', 'b', 's', 'p'];
    let anise = ".anise";
    proof {
        reveal_strlit(".anise");
        assert(anise@ =~= anise_extension());
        assert(bsp@ =~= bsp_extension());
        assert(s@.skip(0) =~= s@);
    }
    let mut out = String::new();
    let mut i: usize = 0;
    while i < n
        invariant
            n == s@.len(),
            s@ == spk_file_name@,
            i <= n,
            bsp@ == bsp_extension(),
            anise@ == anise_extension(),
            out@ + replace_all(s@.skip(i as int), bsp_extension(), anise_extension())
                == replace_all(s@, bsp_extension(), anise_extension()),
        decreases n - i,
    {
        let rest = Ghost(s@.skip(i as int));
        if n - i >= 4 && word_is(spk_file_name, i, i + 4, &bsp) {
            proof {
                assert(rest@.take(4) =~= s@.subrange(i as int, i + 4));
                assert(rest@.skip(4) =~= s@.skip(i + 4));
                assert(out@ + anise@ + replace_all(s@.skip(i + 4), bsp_extension(), anise_extension())
                    =~= out@ + replace_all(rest@, bsp_extension(), anise_extension()));
            }
            out.append(anise);
            i = i + 4;
        } else {
            let c = spk_file_name.substring_char(i, i + 1);
            proof {
                assert(c@ =~= seq![s@[i as int]]);
                assert(rest@.drop_first() =~= s@.skip(i + 1));
                if rest@.len() >= 4 {
                    assert(rest@.take(4) =~= s@.subrange(i as int, i + 4));
                }
                assert(out@ + c@ + replace_all(s@.skip(i + 1), bsp_extension(), anise_extension())
                    =~= out@ + replace_all(rest@, bsp_extension(), anise_extension()));
            }
            out.append(c);
            i = i + 1;
        }
    }
    proof {
        assert(s@.skip(n as int) =~= Seq::<char>::empty());
        assert(out@ + Seq::<char>::empty() =~= out@);
    }
    out
}

/// A merge needs at least two files: the others are merged into the last.
pub fn validate_merge_files(count: usize) -> (r: Result<(), CliErrors>)
    ensures
        count >= 2 <==> r is Ok,
        r matches Err(CliErrors::ArgumentError(msg)) ==> msg@ == "Need at least two files to merge together"@,
{
    if count < 2 {
        Err(CliErrors::ArgumentError(String::from_str("Need at least two files to merge together")))
    } else {
        Ok(())
    }
}

} // verus!
