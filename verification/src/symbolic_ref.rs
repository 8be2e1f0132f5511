//! References to references: `ref: <name>`.
use crate::bytes::starts_with;
use crate::index::{forward_slashes, with_forward_slashes};
use crate::reference::{has_one_line, one_line, RefError};
use crate::text::{
    chars_of, chars_start_with, is_space, res_view, string_of, trim_end, trim_start, trimmed_end,
    trimmed_start,
};
use vstd::prelude::*;
use vstd::slice::slice_subrange;

verus! {

/// The name that a symbolic reference holds.
#[derive(Debug)]
pub struct SymbolicRef {
    pub ref_name: String,
}

impl View for SymbolicRef {
    type V = Seq<char>;

    open spec fn view(&self) -> Seq<char> {
        self.ref_name@
    }
}

/// The name that a symbolic reference file with this content holds.
pub open spec fn symbolic_in(content: Seq<char>) -> Result<Seq<char>, RefError> {
    let line = trim_end(content);
    if !one_line(line) {
        Err(RefError::MultipleLines)
    } else if !starts_with(line, "ref:"@) {
        Err(RefError::NoPrefix)
    } else {
        let rest = trim_start(line.subrange(4, line.len() as int));
        if rest.len() == 0 {
            Err(RefError::Empty)
        } else {
            Ok(forward_slashes(rest))
        }
    }
}

/// The content of the symbolic reference file that holds a name.
pub open spec fn symbolic_text(name: Seq<char>) -> Seq<char> {
    "ref: "@ + name + seq!['\n']
}

/// Reads a symbolic reference file with the given content.
pub fn read_symbolic_ref(content: &str) -> (r: Result<SymbolicRef, RefError>)
    ensures
        res_view(r) == symbolic_in(content@),
{
    let cs = chars_of(content);
    let line = trimmed_end(cs.as_slice());
    if !has_one_line(line) {
        return Err(RefError::MultipleLines);
    }
    if !chars_start_with(line, "ref:") {
        return Err(RefError::NoPrefix);
    }
    proof {
        reveal_strlit("ref:");
    }
    let rest = trimmed_start(slice_subrange(line, 4, line.len()));
    if rest.len() == 0 {
        return Err(RefError::Empty);
    }
    let name = string_of(with_forward_slashes(rest).as_slice());
    Ok(SymbolicRef { ref_name: name })
}

/// The content to write to a symbolic reference file.
pub fn write_symbolic_ref(sym: &SymbolicRef) -> (r: String)
    ensures
        r@ == symbolic_text(sym@),
{
    let mut out = string_of(chars_of("ref: ").as_slice());
    out.append(sym.ref_name.as_str());
    out.push('\n');
    assert(out@ =~= symbolic_text(sym@));
    out
}

/// A symbolic reference reads back as the name that was written to it: a name without line feeds
/// and backslashes and without white space at its ends.
pub proof fn law_symbolic_round_trip(name: Seq<char>)
    requires
        name.len() > 0,
        !is_space(name[0]),
        !is_space(name.last()),
        !name.contains('\n'),
        !name.contains('\\'),
    ensures
        symbolic_in(symbolic_text(name)) == Ok::<Seq<char>, RefError>(name),
{
    let text = symbolic_text(name);
    let line = "ref: "@ + name;
    reveal_strlit("ref:");
    reveal_strlit("ref: ");
    assert(text.drop_last() =~= line);
    assert(text.last() == '\n');
    assert(trim_end(text) == trim_end(line));
    assert(line.last() == name.last());
    assert(trim_end(line) == line);
    assert forall|i: int| 0 <= i < line.len() implies line[i] != '\n' by {
        if i >= 5 {
            assert(line[i] == name[i - 5]);
        }
    }
    crate::bytes::lemma_find_from_is(line, '\n', 0, line.len() as int);
    assert(line.subrange(0, 4) =~= "ref:"@);
    let rest = line.subrange(4, line.len() as int);
    assert(rest[0] == ' ');
    assert(rest.drop_first() =~= name);
    assert(trim_start(rest) == trim_start(name));
    assert(trim_start(name) == name);
    assert forall|i: int| 0 <= i < name.len() implies name[i] != '\\' by {
        assert(name.contains(name[i]));
    }
    assert(forward_slashes(name) =~= name);
}

} // verus!
