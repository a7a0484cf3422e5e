use vstd::prelude::*;

use crate::config::FormatConfig;
use crate::error::FormatError;

verus! {

/// What a formatting pass carries while it maps parsed constructs to
/// documents: the configuration and the original source text.
pub struct FormatContext<'a> {
    pub config: &'a FormatConfig,
    pub source: &'a str,
}

impl<'a> FormatContext<'a> {
    pub fn new(config: &'a FormatConfig, source: &'a str) -> (ctx: Self)
        ensures
            ctx.config == config,
            ctx.source@ == source@,
    {
        FormatContext { config, source }
    }
}

/// Whether the character has Unicode's `White_Space` property, the set of
/// characters that trimming strips.
pub open spec fn is_space_char(c: char) -> bool {
    ||| c == ' '
    ||| c == '\t'
    ||| c == '\n'
    ||| c == '\r'
    ||| c == '\u{000B}'
    ||| c == '\u{000C}'
    ||| c == '\u{0085}'
    ||| c == '\u{00A0}'
    ||| c == '\u{1680}'
    ||| c == '\u{2000}'
    ||| c == '\u{2001}'
    ||| c == '\u{2002}'
    ||| c == '\u{2003}'
    ||| c == '\u{2004}'
    ||| c == '\u{2005}'
    ||| c == '\u{2006}'
    ||| c == '\u{2007}'
    ||| c == '\u{2008}'
    ||| c == '\u{2009}'
    ||| c == '\u{200A}'
    ||| c == '\u{2028}'
    ||| c == '\u{2029}'
    ||| c == '\u{202F}'
    ||| c == '\u{205F}'
    ||| c == '\u{3000}'
}

/// Whether the text is empty or holds only whitespace: the inputs the
/// formatting entry point refuses.
pub open spec fn is_blank(s: Seq<char>) -> bool {
    forall|j: int| 0 <= j < s.len() ==> is_space_char(s[j])
}

/// Whether the character has Unicode's `White_Space` property.
fn is_whitespace_char(c: char) -> (r: bool)
    ensures
        r == is_space_char(c),
{
    c == ' ' || c == '\t' || c == '\n' || c == '\r' || c == '\u{000B}' || c == '\u{000C}' || c
        == '\u{0085}' || c == '\u{00A0}' || c == '\u{1680}' || c == '\u{2000}' || c == '\u{2001}'
        || c == '\u{2002}' || c == '\u{2003}' || c == '\u{2004}' || c == '\u{2005}' || c
        == '\u{2006}' || c == '\u{2007}' || c == '\u{2008}' || c == '\u{2009}' || c == '\u{200A}'
        || c == '\u{2028}' || c == '\u{2029}' || c == '\u{202F}' || c == '\u{205F}' || c
        == '\u{3000}'
}

/// The first guard of the formatting entry point: empty or whitespace-only
/// source text is refused, and exactly that input.
pub fn reject_blank(source: &str) -> (r: Result<(), FormatError>)
    ensures
        r is Err <==> is_blank(source@),
        r is Err ==> r == Err::<(), FormatError>(FormatError::EmptyInput),
{
    let n = source.unicode_len();
    let mut i: usize = 0;
    while i < n
        invariant
            i <= n,
            n == source@.len(),
            forall|j: int| 0 <= j < i ==> is_space_char(source@[j]),
        decreases n - i,
    {
        let c = source.get_char(i);
        if !is_whitespace_char(c) {
            return Ok(());
        }
        i = i + 1;
    }
    Err(FormatError::EmptyInput)
}

/// The second guard of the formatting entry point: when the parser
/// reported errors, the first is surfaced as a syntax error and the rest
/// are dropped; with none reported, formatting may proceed.
pub fn syntax_result(errors: &Vec<String>) -> (r: Result<(), FormatError>)
    ensures
        errors@.len() == 0 ==> r == Ok::<(), FormatError>(()),
        errors@.len() > 0 ==> (r matches Err(FormatError::Syntax(d)) && d@ == errors@[0]@),
{
    if errors.len() == 0 {
        Ok(())
    } else {
        Err(FormatError::Syntax(errors[0].clone()))
    }
}

} // verus!
