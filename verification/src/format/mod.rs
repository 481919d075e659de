//! The formatting done without a formatter or a language server, for JSON and XML.
//!
//! Both work on the text as written rather than on a parsed model of it, so numbers,
//! escapes and key order come out exactly as they went in, and so do XML comments; only
//! the white space between the pieces changes. JSON is the standard's JSON, without
//! comments. Text that does not read as a whole document is refused and left alone.

pub mod breaks;
pub mod depth;
pub mod json;
pub mod json_lines;
pub mod pieces;
pub mod settled;
pub mod xml;

use crate::format::json::{json, json_flaw, json_outcome};
use crate::format::xml::{xml, xml_outcome, Look};
use crate::text::{append_str, decimal, same_str, string, write_number};
use vstd::prelude::*;

verus! {

/// Why an element was kept as written.
#[derive(Debug, Clone, Copy, PartialEq, Eq, Structural, PartialOrd, Ord)]
pub enum Kept {
    /// The element carries `xml:space="preserve"`.
    XmlSpace,
    /// The element holds text, or spaces, that are its content.
    CharacterData,
}

/// A document formatted, and what in it was left as written.
#[derive(Debug, PartialEq)]
pub struct Formatted {
    pub text: String,
    /// The elements kept exactly as they were, and why, so a no-op is explained; empty
    /// when the whole document was reflowed.
    pub kept: Vec<Kept>,
}

/// The reasons in `kept`, each named once, in the order they first come up.
pub open spec fn reasons(kept: Seq<Kept>) -> Seq<char> {
    if !kept.contains(Kept::CharacterData) {
        "xml:space=\"preserve\""@
    } else if !kept.contains(Kept::XmlSpace) {
        "character data"@
    } else if kept[0] == Kept::XmlSpace {
        "xml:space=\"preserve\""@ + " and "@ + "character data"@
    } else {
        "character data"@ + " and "@ + "xml:space=\"preserve\""@
    }
}

/// What was kept, in words: `3 elements kept as written: character data`.
pub open spec fn kept_words(kept: Seq<Kept>) -> Seq<char> {
    decimal(kept.len()) + (if kept.len() == 1 {
        " element kept as written: "@
    } else {
        " elements kept as written: "@
    }) + reasons(kept)
}

impl Formatted {
    /// What was kept, for the status bar: `3 elements kept as written: character data`;
    /// none when nothing was.
    pub fn kept_message(&self) -> (r: Option<String>)
        ensures
            match r {
                Some(words) => self.kept@.len() > 0 && words@ == kept_words(self.kept@),
                None => self.kept@.len() == 0,
            },
    {
        if self.kept.is_empty() {
            return None;
        }
        let mut space: bool = false;
        let mut data: bool = false;
        let mut i: usize = 0;
        while i < self.kept.len()
            invariant
                i <= self.kept@.len(),
                space == self.kept@.take(i as int).contains(Kept::XmlSpace),
                data == self.kept@.take(i as int).contains(Kept::CharacterData),
            decreases self.kept@.len() - i,
        {
            let ghost before = self.kept@.take(i as int);
            let ghost after = self.kept@.take(i + 1);
            proof {
                assert(after =~= before.push(self.kept@[i as int]));
                assert(forall|one: Kept| before.contains(one) ==> after.contains(one)) by {
                    assert forall|one: Kept| before.contains(one) implies after.contains(one) by {
                        let at = choose|at: int| 0 <= at < before.len() && before[at] == one;
                        assert(after[at] == one);
                    }
                }
                assert(after[i as int] == self.kept@[i as int]);
            }
            match self.kept[i] {
                Kept::XmlSpace => {
                    space = true;
                },
                Kept::CharacterData => {
                    data = true;
                },
            }
            i = i + 1;
        }
        proof {
            assert(self.kept@.take(self.kept@.len() as int) =~= self.kept@);
        }
        let mut words: Vec<char> = Vec::new();
        write_number(&mut words, self.kept.len() as u64);
        if self.kept.len() == 1 {
            append_str(&mut words, " element kept as written: ");
        } else {
            append_str(&mut words, " elements kept as written: ");
        }
        if !data {
            append_str(&mut words, "xml:space=\"preserve\"");
        } else if !space {
            append_str(&mut words, "character data");
        } else if self.kept[0] == Kept::XmlSpace {
            append_str(&mut words, "xml:space=\"preserve\"");
            append_str(&mut words, " and ");
            append_str(&mut words, "character data");
        } else {
            append_str(&mut words, "character data");
            append_str(&mut words, " and ");
            append_str(&mut words, "xml:space=\"preserve\"");
        }
        proof {
            assert(words@ =~= kept_words(self.kept@));
        }
        Some(string(words.as_slice()))
    }
}

/// A formatted document by its text and what was kept, or the flaw it was refused for.
pub open spec fn outcome(r: Result<Formatted, String>) -> Result<
    (Seq<char>, Seq<Kept>),
    Seq<char>,
> {
    match r {
        Ok(formatted) => Ok((formatted.text@, formatted.kept@)),
        Err(flaw) => Err(flaw@),
    }
}

/// Formats `text` as the language `language` names, indenting by `indent` and ending lines
/// with `newline`; `None` when there is no formatter here for that language.
pub fn format(language: &str, text: &str, indent: &str, newline: &str) -> (r: Option<
    Result<Formatted, String>,
>)
    ensures
        language@ == "json"@ ==> r is Some && outcome(r->0) == (match json_outcome(
            json_flaw(text@),
            text@,
            indent@,
            newline@,
        ) {
            Ok(out) => Ok((out, Seq::<Kept>::empty())),
            Err(flaw) => Err(flaw),
        }),
        language@ == "xml"@ ==> r is Some && outcome(r->0) == xml_outcome(
            text@,
            (Look { indent: indent@, newline: newline@ }),
        ),
        language@ != "json"@ && language@ != "xml"@ ==> r is None,
{
    proof {
        reveal_strlit("json");
        reveal_strlit("xml");
        assert("json"@.len() != "xml"@.len());
    }
    if same_str(language, "json") {
        Some(
            match json(text, indent, newline) {
                Ok(text) => Ok(Formatted { text, kept: Vec::new() }),
                Err(flaw) => Err(flaw),
            },
        )
    } else if same_str(language, "xml") {
        Some(xml(text, indent, newline))
    } else {
        None
    }
}

} // verus!
