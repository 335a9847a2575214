//! Settings that come from the environment as optional texts.

use crate::numbers::{decimal_text, is_digit, lemma_decimal, parse_unsigned, parsed_unsigned};
use crate::numbers::{push_decimal, unsigned_digits};
use crate::text::{is_space, optional, trim_text, trimmed, trimming_takes_off_white_space};
use vstd::prelude::*;

verus! {

/// `setting` without the white space round it, if anything is left.
pub open spec fn filled_setting(setting: Option<Seq<char>>) -> Option<Seq<char>> {
    match setting {
        Some(text) => if trimmed(text).len() > 0 {
            Some(trimmed(text))
        } else {
            None
        },
        None => None,
    }
}

/// `setting` without the white space round it, if anything is left.
pub fn read_setting(setting: &Option<String>) -> (value: Option<String>)
    ensures
        optional(value) == filled_setting(optional(*setting)),
{
    match setting {
        Some(text) => {
            let kept = trim_text(text.as_str());
            if kept.as_str().is_empty() {
                None
            } else {
                Some(kept)
            }
        },
        None => None,
    }
}

/// The port to listen on: the one that is set, if it is a port, else 8080.
pub open spec fn port_setting(setting: Option<Seq<char>>) -> nat {
    match setting {
        Some(text) => match parsed_unsigned(text, 65535) {
            Some(port) => port,
            None => 8080,
        },
        None => 8080,
    }
}

/// The port to listen on.
pub fn listen_port(setting: &Option<String>) -> (port: u16)
    ensures
        port == port_setting(optional(*setting)),
{
    match setting {
        Some(text) => match parse_unsigned(text.as_str(), 65535) {
            Some(port) => port as u16,
            None => 8080,
        },
        None => 8080,
    }
}

/// The address to listen on, which only this machine reaches.
pub open spec fn address_text(port: u16) -> Seq<char> {
    "127.0.0.1:"@ + decimal_text(port as nat)
}

/// The address to listen on, which only this machine reaches.
pub fn listen_address(port: u16) -> (address: String)
    ensures
        address@ == "127.0.0.1:"@ + decimal_text(port as nat),
        address@ == address_text(port),
{
    let mut address = "127.0.0.1:".to_owned();
    push_decimal(&mut address, port as u64);
    address
}

/// Whether the download tool shall not be updated: anything but white space is set.
pub fn update_is_skipped(setting: &Option<String>) -> (skipped: bool)
    ensures
        skipped == (filled_setting(optional(*setting)) is Some),
{
    read_setting(setting).is_some()
}

/// White space round a setting does not matter, and a setting that is nothing else is as good as
/// none.
pub proof fn a_setting_counts_if_it_says_something(
    before: Seq<char>,
    text: Seq<char>,
    behind: Seq<char>,
)
    requires
        forall|i: int| 0 <= i < before.len() ==> is_space(#[trigger] before[i]),
        forall|i: int| 0 <= i < behind.len() ==> is_space(#[trigger] behind[i]),
        text.len() > 0 ==> !is_space(text[0]) && !is_space(text.last()),
    ensures
        filled_setting(Some(before + text + behind)) == (if text.len() > 0 {
            Some(text)
        } else {
            None
        }),
        filled_setting(None) is None,
{
    trimming_takes_off_white_space(before, text, behind);
}

/// The port is the one that is set wherever a port is, written in digits; in all other cases, and
/// where nothing is set, it is 8080.
pub proof fn the_port_is_the_one_that_is_set(port: nat, text: Seq<char>)
    ensures
        port <= 65535 ==> port_setting(Some(decimal_text(port))) == port,
        port > 65535 ==> port_setting(Some(decimal_text(port))) == 8080,
        (exists|i: int| 1 <= i < text.len() && !is_digit(#[trigger] text[i])) ==> port_setting(
            Some(text),
        ) == 8080,
        text.len() == 0 ==> port_setting(Some(text)) == 8080,
        port_setting(None) == 8080,
{
    lemma_decimal(port);
    if exists|i: int| 1 <= i < text.len() && !is_digit(#[trigger] text[i]) {
        let i = choose|i: int| 1 <= i < text.len() && !is_digit(#[trigger] text[i]);
        let digits = unsigned_digits(text);
        if text[0] == '+' {
            assert(digits[i - 1] == text[i]);
        } else {
            assert(digits[i] == text[i]);
        }
    }
}

/// The address to listen on is that of this machine alone, with the port behind it.
pub proof fn only_this_machine_is_served(port: u16)
    ensures
        address_text(port) == "127.0.0.1"@ + seq![':'] + decimal_text(port as nat),
        !decimal_text(port as nat).contains(':'),
{
    reveal_strlit("127.0.0.1");
    reveal_strlit("127.0.0.1:");
    assert("127.0.0.1:"@ =~= "127.0.0.1"@ + seq![':']);
    lemma_decimal(port as nat);
}

} // verus!
