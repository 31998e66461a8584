//! Small formatting helpers shared by harnesses around the trie.

use vstd::prelude::*;
use vstd::string::StringExecFns;

verus! {

/// The character sequence of `depth` levels of four-space indentation.
pub open spec fn spec_indent(depth: nat) -> Seq<char>
    decreases depth,
{
    if depth == 0 {
        Seq::empty()
    } else {
        "    "@ + spec_indent((depth - 1) as nat)
    }
}

/// Indents a line by four spaces per depth level.
pub fn format_indent(depth: usize, s: &str) -> (r: String)
    ensures
        r@ == spec_indent(depth as nat) + s@,
{
    let mut out = String::new();
    let mut k: usize = 0;
    proof {
        assert(out@ =~= spec_indent(0));
    }
    while k < depth
        invariant
            k <= depth,
            out@ == spec_indent(k as nat),
        decreases depth - k,
    {
        out.append("    ");
        proof {
            lemma_indent_step(k as nat);
        }
        k += 1;
    }
    out.append(s);
    out
}

/// Indentation grows four spaces at a time.
proof fn lemma_indent_step(depth: nat)
    ensures
        spec_indent(depth) + "    "@ =~= spec_indent(depth + 1),
    decreases depth,
{
    if depth == 0 {
        assert(spec_indent(0) + "    "@ =~= "    "@);
        assert(spec_indent(1) =~= "    "@ + Seq::<char>::empty());
    } else {
        lemma_indent_step((depth - 1) as nat);
        assert(spec_indent(depth) + "    "@ =~= "    "@ + (spec_indent((depth - 1) as nat)
            + "    "@));
    }
}

} // verus!
