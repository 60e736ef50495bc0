//! What the machine underneath is.

use crate::session_laws::{lemma_spells, spells};
use crate::text::{ascii_lowered, contains_text, holds_text, stands_at, to_ascii_lowercase};
use vstd::prelude::*;

verus! {

/// Whether a kernel release says that Linux runs inside Windows.
pub open spec fn names_wsl(release: Seq<char>) -> bool {
    holds_text(ascii_lowered(release), "microsoft"@) || holds_text(ascii_lowered(release), "wsl"@)
}

/// Whether this is WSL, by the text of the kernel release if it could be read. WSLg ships a
/// Wayland compositor older than the window's client supports, so there XWayland is used.
pub fn is_wsl(release: Option<&str>) -> (yes: bool)
    ensures
        yes == match release {
            Some(text) => names_wsl(text@),
            None => false,
        },
{
    match release {
        Some(text) => {
            let lowered = to_ascii_lowercase(text);
            contains_text(lowered.as_str(), "microsoft") || contains_text(lowered.as_str(), "wsl")
        },
        None => false,
    }
}

/// A kernel release names WSL exactly if `microsoft` or `wsl` stands in it somewhere, in
/// whatever case.
pub proof fn law_wsl_is_known_by_name(release: Seq<char>)
    ensures
        names_wsl(release) <==> (exists|at: int| #[trigger] spells_at(release, "microsoft"@, at)) || (
        exists|at: int| #[trigger] spells_at(release, "wsl"@, at)),
{
    reveal_strlit("microsoft");
    reveal_strlit("wsl");
    lemma_spells_at(release, "microsoft"@);
    lemma_spells_at(release, "wsl"@);
}

/// Whether a word stands in a text at that place, in whatever case.
pub open spec fn spells_at(text: Seq<char>, word: Seq<char>, at: int) -> bool {
    0 <= at && at + word.len() <= text.len() && spells(text.subrange(at, at + word.len()), word)
}

proof fn lemma_spells_at(text: Seq<char>, word: Seq<char>)
    requires
        forall|k: int| 0 <= k < word.len() ==> !('A' <= #[trigger] word[k] <= 'Z'),
    ensures
        holds_text(ascii_lowered(text), word) <==> exists|at: int| #[trigger]
            spells_at(text, word, at),
{
    let low = ascii_lowered(text);
    assert forall|at: int| stands_at(low, word, at) <==> #[trigger] spells_at(text, word, at) by {
        if 0 <= at && at + word.len() <= text.len() {
            let part = text.subrange(at, at + word.len());
            lemma_spells(part, word);
            assert(low.subrange(at, at + word.len()) =~= ascii_lowered(part));
        }
    }
    if holds_text(low, word) {
        let at = choose|at: int| #[trigger] stands_at(low, word, at);
        assert(spells_at(text, word, at));
    }
    if exists|at: int| #[trigger] spells_at(text, word, at) {
        let at = choose|at: int| #[trigger] spells_at(text, word, at);
        assert(stands_at(low, word, at));
    }
}

} // verus!
