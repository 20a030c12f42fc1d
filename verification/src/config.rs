//! The Hesiod configuration and the name under which a user's keys are
//! looked up.
//!
//! The configuration is read line by line, each line with its line feed. A
//! line gives a value to `lhs` or `rhs` when, its last character taken off,
//! it starts with `lhs=` or `rhs=` and goes on after that. The first such
//! line for each of the two counts.

use crate::text::{text_of, to_chars};
use vstd::prelude::*;
use vstd::string::*;

verus! {

/// Why no configuration could be had.
#[derive(Debug, Clone, Copy, PartialEq, Eq)]
pub enum ConfigError {
    /// The source could not be opened or read.
    Unreadable,
    /// The source gives no value to `lhs`, or none to `rhs`.
    MissingField,
}

/// A Hesiod configuration: the two parts of the domain, neither of them empty.
#[derive(Debug, PartialEq, Eq)]
pub struct HesiodConfig {
    lhs: String,
    rhs: String,
}

/// What a `HesiodConfig` holds.
pub struct HesiodConfigView {
    pub lhs: Seq<char>,
    pub rhs: Seq<char>,
}

impl View for HesiodConfig {
    type V = HesiodConfigView;

    closed spec fn view(&self) -> HesiodConfigView {
        HesiodConfigView { lhs: self.lhs@, rhs: self.rhs@ }
    }
}

/// The characters `lhs=`.
pub open spec fn lhs_key() -> Seq<char> {
    seq!['l', 'h', 's', '=']
}

/// The characters `rhs=`.
pub open spec fn rhs_key() -> Seq<char> {
    seq!['r', 'h', 's', '=']
}

/// The characters `.ssh`, the label that stands between the user's name and
/// the domain.
pub open spec fn ssh_label() -> Seq<char> {
    seq!['.', 's', 's', 'h']
}

/// The length of the first line of `source`, its line feed counted if it has
/// one.
pub open spec fn first_line_len(source: Seq<char>) -> nat
    decreases source.len(),
{
    if source.len() == 0 {
        0
    } else if source[0] == '\n' {
        1
    } else {
        1 + first_line_len(source.drop_first())
    }
}

/// A text that is not empty has a first line, which is not empty and no
/// longer than the text.
pub proof fn lemma_first_line_len(source: Seq<char>)
    ensures
        first_line_len(source) <= source.len(),
        source.len() > 0 ==> first_line_len(source) > 0,
    decreases source.len(),
{
    if source.len() > 0 && source[0] != '\n' {
        lemma_first_line_len(source.drop_first());
    }
}

/// The value that `line` gives to `key`, if it gives one: what stands between
/// the key at its start and its last character, where that is not empty.
pub open spec fn line_value(line: Seq<char>, key: Seq<char>) -> Option<Seq<char>> {
    let body = line.drop_last();
    if line.len() > 5 && body.take(4) == key {
        Some(body.skip(4))
    } else {
        None
    }
}

/// The value that the first line of `source` to give one gives to `key`.
pub open spec fn first_value(source: Seq<char>, key: Seq<char>) -> Option<Seq<char>>
    decreases source.len(),
    via first_value_decreases
{
    if source.len() == 0 {
        None
    } else {
        let n = first_line_len(source);
        match line_value(source.take(n as int), key) {
            Some(value) => Some(value),
            None => first_value(source.skip(n as int), key),
        }
    }
}

#[via_fn]
proof fn first_value_decreases(source: Seq<char>, key: Seq<char>) {
    lemma_first_line_len(source);
}

/// Where the line that starts at `from` ends.
fn line_end(chars: &Vec<char>, from: usize) -> (end: usize)
    requires
        from < chars.len(),
    ensures
        from < end <= chars.len(),
        end == from + first_line_len(chars@.skip(from as int)),
{
    let mut end: usize = from;
    while end < chars.len() && chars[end] != '\n'
        invariant
            from <= end <= chars.len(),
            first_line_len(chars@.skip(from as int)) == (end - from) + first_line_len(
                chars@.skip(end as int),
            ),
        decreases chars.len() - end,
    {
        assert(chars@.skip(end as int).drop_first() =~= chars@.skip(end + 1));
        end += 1;
    }
    if end < chars.len() {
        end += 1;
    }
    end
}

/// The value that the line `chars[from..to]` gives to the key that starts
/// with `initial` and goes on with `hs=`.
fn value_in(chars: &Vec<char>, from: usize, to: usize, initial: char) -> (value: Option<String>)
    requires
        from <= to <= chars.len(),
    ensures
        value is Some <==> line_value(
            chars@.subrange(from as int, to as int),
            seq![initial, 'h', 's', '='],
        ) is Some,
        value matches Some(v) ==> Some(v@) == line_value(
            chars@.subrange(from as int, to as int),
            seq![initial, 'h', 's', '='],
        ),
{
    let ghost line = chars@.subrange(from as int, to as int);
    let ghost key = seq![initial, 'h', 's', '='];
    if to - from > 5 && chars[from] == initial && chars[from + 1] == 'h' && chars[from + 2] == 's'
        && chars[from + 3] == '=' {
        let value = text_of(chars, from + 4, to - 1);
        proof {
            assert(line.drop_last().take(4) =~= key);
            assert(line.drop_last().skip(4) =~= chars@.subrange(from + 4, to - 1));
        }
        Some(value)
    } else {
        proof {
            if line.len() > 5 {
                let head = line.drop_last().take(4);
                assert(head[0] == line[0] && head[1] == line[1] && head[2] == line[2] && head[3]
                    == line[3]);
                assert(key[0] == initial && key[1] == 'h' && key[2] == 's' && key[3] == '=');
            }
        }
        None
    }
}

impl HesiodConfig {
    #[verifier::type_invariant]
    spec fn both_given(&self) -> bool {
        self.lhs@.len() > 0 && self.rhs@.len() > 0
    }

    /// Reads the configuration from the text of its source. Succeeds where
    /// the text gives a value to `lhs` and one to `rhs`, with the first value
    /// that it gives to each.
    pub fn new(source: &str) -> (config: Result<HesiodConfig, ConfigError>)
        ensures
            match config {
                Ok(c) => {
                    &&& first_value(source@, lhs_key()) == Some(c@.lhs)
                    &&& first_value(source@, rhs_key()) == Some(c@.rhs)
                    &&& c@.lhs.len() > 0
                    &&& c@.rhs.len() > 0
                },
                Err(e) => {
                    &&& e == ConfigError::MissingField
                    &&& (first_value(source@, lhs_key()) is None || first_value(
                        source@,
                        rhs_key(),
                    ) is None)
                },
            },
    {
        let chars = to_chars(source);
        let mut lhs: Option<String> = None;
        let mut rhs: Option<String> = None;
        let mut from: usize = 0;
        assert(chars@.skip(0) =~= chars@);
        while from < chars.len()
            invariant
                chars@ == source@,
                from <= chars.len(),
                first_value(source@, lhs_key()) == match lhs {
                    Some(v) => Some(v@),
                    None => first_value(chars@.skip(from as int), lhs_key()),
                },
                first_value(source@, rhs_key()) == match rhs {
                    Some(v) => Some(v@),
                    None => first_value(chars@.skip(from as int), rhs_key()),
                },
                lhs matches Some(v) ==> v@.len() > 0,
                rhs matches Some(v) ==> v@.len() > 0,
            decreases chars.len() - from,
        {
            let to = line_end(&chars, from);
            proof {
                let rest = chars@.skip(from as int);
                assert(rest.take(to - from) =~= chars@.subrange(from as int, to as int));
                assert(rest.skip(to - from) =~= chars@.skip(to as int));
            }
            if lhs.is_none() {
                lhs = value_in(&chars, from, to, 'l');
            }
            if rhs.is_none() {
                rhs = value_in(&chars, from, to, 'r');
            }
            from = to;
        }
        match (lhs, rhs) {
            (Some(lhs), Some(rhs)) => Ok(HesiodConfig { lhs, rhs }),
            _ => Err(ConfigError::MissingField),
        }
    }

    /// The configuration in `contents`, where the source could be read
    /// (`Some`); where it could not (`None`), the error that says so.
    pub fn from_source(contents: Option<&str>) -> (config: Result<HesiodConfig, ConfigError>)
        ensures
            match contents {
                None => config == Err::<HesiodConfig, ConfigError>(ConfigError::Unreadable),
                Some(source) => match config {
                    Ok(c) => {
                        &&& first_value(source@, lhs_key()) == Some(c@.lhs)
                        &&& first_value(source@, rhs_key()) == Some(c@.rhs)
                        &&& c@.lhs.len() > 0
                        &&& c@.rhs.len() > 0
                    },
                    Err(e) => {
                        &&& e == ConfigError::MissingField
                        &&& (first_value(source@, lhs_key()) is None || first_value(
                            source@,
                            rhs_key(),
                        ) is None)
                    },
                },
            },
    {
        match contents {
            None => Err(ConfigError::Unreadable),
            Some(source) => HesiodConfig::new(source),
        }
    }

    /// The part of the domain that comes first.
    pub fn lhs(&self) -> (lhs: &str)
        ensures
            lhs@ == self@.lhs,
            lhs@.len() > 0,
    {
        proof {
            use_type_invariant(self);
        }
        self.lhs.as_str()
    }

    /// The part of the domain that comes last.
    pub fn rhs(&self) -> (rhs: &str)
        ensures
            rhs@ == self@.rhs,
            rhs@.len() > 0,
    {
        proof {
            use_type_invariant(self);
        }
        self.rhs.as_str()
    }

    /// The domain: `lhs` followed by `rhs`.
    pub fn domain(&self) -> (domain: String)
        ensures
            domain@ == self@.lhs + self@.rhs,
    {
        let mut domain = self.lhs.clone();
        domain.append(self.rhs.as_str());
        domain
    }
}

impl Clone for HesiodConfig {
    fn clone(&self) -> (config: HesiodConfig)
        ensures
            config@ == self@,
    {
        proof {
            use_type_invariant(self);
        }
        HesiodConfig { lhs: self.lhs.clone(), rhs: self.rhs.clone() }
    }
}

/// The name under which the keys of `username` are looked up: the user's
/// name, the label `.ssh` and the domain of `config`.
pub fn build_address(username: &str, config: &HesiodConfig) -> (address: String)
    ensures
        address@ == username@ + ssh_label() + config@.lhs + config@.rhs,
{
    proof {
        reveal_strlit(".ssh");
        assert(".ssh"@ =~= ssh_label());
    }
    let mut address = username.to_owned();
    address.append(".ssh");
    address.append(config.lhs());
    address.append(config.rhs());
    address
}

} // verus!
