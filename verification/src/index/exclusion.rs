//! Keeping an index stored inside one of its roots out of its own scans.
use vstd::prelude::*;
use vstd::std_specs::iter::IteratorSpec;
use vstd::string::{axiom_spec_iter, next_postcondition};

verus! {

broadcast use axiom_spec_iter, next_postcondition;

/// Characters that an override rule treats as pattern syntax.
pub open spec fn is_pattern_char(c: char) -> bool {
    c == '\\' || c == '*' || c == '?' || c == '[' || c == ']' || c == '{' || c == '}' || c == ' '
}

/// One character of a path as a literal in an override rule: backslashes
/// become slashes, and pattern characters are escaped.
pub open spec fn escaped_char(c: char) -> Seq<char> {
    let d = if c == '\\' { '/' } else { c };
    if is_pattern_char(d) { seq!['\\', d] } else { seq![d] }
}

/// A path as a literal in an override rule.
pub open spec fn escaped_literal(path: Seq<char>) -> Seq<char>
    decreases path.len(),
{
    if path.len() == 0 { Seq::empty() } else { escaped_literal(path.drop_last()) + escaped_char(path.last()) }
}

/// Appends one character with `String::push`.
///
/// Trusted: the standard library appends the character to the end.
#[verifier::external_body]
fn push_char(text: &mut String, c: char)
    ensures
        final(text)@ == old(text)@.push(c),
{
    text.push(c);
}

/// Writes `path` as a literal of the override-rule syntax.
pub fn escape_override_literal(path: &str) -> (escaped: String)
    ensures
        escaped@ == escaped_literal(path@),
{
    let chars = chars_of(path);
    let mut escaped = String::new();
    let mut k: usize = 0;
    proof {
        assert(escaped@ =~= escaped_literal(chars@.take(0)));
    }
    while k < chars.len()
        invariant
            chars@ == path@,
            k <= chars@.len(),
            escaped@ == escaped_literal(chars@.take(k as int)),
        decreases chars@.len() - k,
    {
        let c = chars[k];
        let d = if c == '\\' { '/' } else { c };
        if d == '\\' || d == '*' || d == '?' || d == '[' || d == ']' || d == '{' || d == '}' || d == ' ' {
            push_char(&mut escaped, '\\');
        }
        push_char(&mut escaped, d);
        proof {
            assert(chars@.take(k + 1).drop_last() =~= chars@.take(k as int));
            assert(chars@.take(k + 1).last() == c);
            assert(escaped@ =~= escaped_literal(chars@.take(k as int)) + escaped_char(c));
        }
        k = k + 1;
    }
    proof {
        assert(chars@.take(chars@.len() as int) =~= chars@);
    }
    escaped
}

/// The override rules that keep an index at `relative` inside a root, and
/// its lock, temporary and backup files, out of that root's scans.
pub open spec fn exclusion_rules(relative: Seq<char>) -> Seq<Seq<char>> {
    let e = escaped_literal(relative);
    seq!["!/"@ + e, "!/"@ + e + ".lock"@, "!/"@ + e + ".tmp.*"@, "!/"@ + e + ".backup.*"@]
}

fn rule(escaped: &String, tail: &str) -> (text: String)
    ensures
        text@ == "!/"@ + escaped@ + tail@,
{
    let mut text = String::from_str("!/");
    text.append(escaped.as_str());
    text.append(tail);
    text
}

/// The override rules for an index stored at `relative` inside a root.
pub fn storage_exclusion_rules(relative: &str) -> (rules: Vec<String>)
    ensures
        rules@.len() == 4,
        forall|i: int| 0 <= i < 4 ==> (#[trigger] rules@[i])@ == exclusion_rules(relative@)[i],
{
    let escaped = escape_override_literal(relative);
    proof {
        reveal_strlit("");
    }
    let mut rules: Vec<String> = Vec::new();
    rules.push(rule(&escaped, ""));
    rules.push(rule(&escaped, ".lock"));
    rules.push(rule(&escaped, ".tmp.*"));
    rules.push(rule(&escaped, ".backup.*"));
    proof {
        assert(("!/"@ + escaped@ + ""@) =~= "!/"@ + escaped@);
    }
    rules
}

/// Whether a file named `name`, beside an index named `index_name`, is one
/// of the index's own files: the index itself, its lock, or one of its
/// temporary or backup files.
pub open spec fn artifact_name(name: Seq<char>, index_name: Seq<char>) -> bool {
    name == index_name || (index_name.is_prefix_of(name) && {
        let suffix = name.skip(index_name.len() as int);
        suffix == ".lock"@ || ".tmp."@.is_prefix_of(suffix) || ".backup."@.is_prefix_of(suffix)
    })
}

/// The characters of a text.
fn chars_of(text: &str) -> (chars: Vec<char>)
    ensures
        chars@ == text@,
{
    let mut iter = text.chars();
    let mut chars: Vec<char> = Vec::new();
    loop
        invariant
            text@ == chars@ + iter.remaining(),
            iter.obeys_prophetic_iter_laws(),
            iter.decrease() is Some,
        ensures
            text@ == chars@,
        decreases iter.decrease()->0,
    {
        let ghost before = iter.remaining();
        match iter.next() {
            Some(c) => {
                proof {
                    assert(chars@.push(c) + iter.remaining() =~= chars@ + before);
                }
                chars.push(c);
            },
            None => {
                proof {
                    assert(text@ =~= chars@);
                }
                break;
            },
        }
    }
    chars
}

/// Whether `small` occurs in `big` at `at`.
fn occurs_at(big: &Vec<char>, at: usize, small: &Vec<char>) -> (found: bool)
    requires
        at <= big@.len(),
    ensures
        found == (at + small@.len() <= big@.len() && big@.subrange(at as int, at + small@.len()) == small@),
{
    let n = big.len();
    if small.len() > n - at {
        return false;
    }
    let mut k: usize = 0;
    while k < small.len()
        invariant
            n == big@.len(),
            at + small@.len() <= big@.len(),
            k <= small@.len(),
            forall|m: int| 0 <= m < k ==> big@[at + m] == small@[m],
        decreases small@.len() - k,
    {
        if big[at + k] != small[k] {
            proof {
                assert(big@.subrange(at as int, at + small@.len())[k as int] != small@[k as int]);
            }
            return false;
        }
        k = k + 1;
    }
    proof {
        assert(big@.subrange(at as int, at + small@.len()) =~= small@);
    }
    true
}

/// Whether a file named `name`, beside the index file `index_name`, is
/// one of the index's own files.
pub fn is_artifact_name(name: &str, index_name: &str) -> (artifact: bool)
    ensures
        artifact == artifact_name(name@, index_name@),
{
    let name_chars = chars_of(name);
    let index_chars = chars_of(index_name);
    if !occurs_at(&name_chars, 0, &index_chars) {
        proof {
            assert(name_chars@.subrange(0, index_chars@.len() as int) == name_chars@.take(index_chars@.len() as int));
            if name@ == index_name@ {
                assert(name_chars@.subrange(0, index_chars@.len() as int) =~= index_chars@);
            }
        }
        return false;
    }
    let at = index_chars.len();
    let ghost suffix = name@.skip(at as int);
    let lock = chars_of(".lock");
    let tmp = chars_of(".tmp.");
    let backup = chars_of(".backup.");
    let same = name_chars.len() == at;
    let is_lock = name_chars.len() - at == lock.len() && occurs_at(&name_chars, at, &lock);
    let is_tmp = occurs_at(&name_chars, at, &tmp);
    let is_backup = occurs_at(&name_chars, at, &backup);
    proof {
        assert(index_name@.is_prefix_of(name@)) by {
            assert(name_chars@.subrange(0, at as int) =~= index_chars@);
        }
        assert(same == (name@ == index_name@)) by {
            if same {
                assert(name@ =~= index_name@);
            }
        }
        assert(is_lock == (suffix == ".lock"@)) by {
            if is_lock {
                assert(suffix =~= name_chars@.subrange(at as int, at + lock@.len()));
            }
            if suffix == ".lock"@ {
                assert(name_chars@.subrange(at as int, at + lock@.len()) =~= suffix);
            }
        }
        assert(is_tmp == ".tmp."@.is_prefix_of(suffix)) by {
            if is_tmp {
                assert(suffix.take(tmp@.len() as int) =~= name_chars@.subrange(at as int, at + tmp@.len()));
            }
            if ".tmp."@.is_prefix_of(suffix) {
                assert(name_chars@.subrange(at as int, at + tmp@.len()) =~= suffix.take(tmp@.len() as int));
            }
        }
        assert(is_backup == ".backup."@.is_prefix_of(suffix)) by {
            if is_backup {
                assert(suffix.take(backup@.len() as int) =~= name_chars@.subrange(at as int, at + backup@.len()));
            }
            if ".backup."@.is_prefix_of(suffix) {
                assert(name_chars@.subrange(at as int, at + backup@.len()) =~= suffix.take(backup@.len() as int));
            }
        }
    }
    same || is_lock || is_tmp || is_backup
}

}

