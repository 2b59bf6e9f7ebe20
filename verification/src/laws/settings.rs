//! What the service is set up with.
use vstd::prelude::*;

use crate::config::{same_but_url_and_secret, Config, Pve};
use crate::pve::{is_header_value, token_of};

verus! {

/// Loading a configuration changes the URL and the secret and nothing else.
pub proof fn only_url_and_secret_change(a: Config, b: Config)
    ensures
        same_but_url_and_secret(a, b) <==> a == (Config {
            pve: Pve { url: a.pve.url, token_secret: a.pve.token_secret, ..b.pve },
            ..b
        }),
{
}

/// The token that requests carry: its id and its secret, in the form of the API.
pub proof fn token_is_written_out(pve: Pve)
    ensures
        token_of(pve) == seq!['P', 'V', 'E', 'A', 'P', 'I', 'T', 'o', 'k', 'e', 'n', '=']
            + pve.token_id@ + seq!['='] + (match pve.token_secret {
            Some(secret) => secret@,
            None => Seq::empty(),
        }),
{
    reveal_strlit("PVEAPIToken=");
    reveal_strlit("=");
    reveal_strlit("");
    assert("PVEAPIToken="@ =~= seq![
        'P',
        'V',
        'E',
        'A',
        'P',
        'I',
        'T',
        'o',
        'k',
        'e',
        'n',
        '=',
    ]);
    assert("="@ =~= seq!['=']);
    assert(""@ =~= Seq::empty());
}

/// A character that a header cannot carry.
pub open spec fn is_control(c: char) -> bool {
    c != '\t' && ((c as int) < 0x20 || c as int == 0x7F)
}

/// A text can be the value of a header unless a control character stands in it.
pub proof fn control_characters_are_refused(text: Seq<char>)
    ensures
        is_header_value(text) <==> forall|i: int|
            0 <= i < text.len() ==> !is_control(#[trigger] text[i]),
{
    if forall|i: int| 0 <= i < text.len() ==> !is_control(#[trigger] text[i]) {
        assert forall|i: int| 0 <= i < text.len() implies {
            let c = #[trigger] text[i];
            c == '\t' || (c as int >= 32 && c as int != 127)
        } by {
            assert(!is_control(text[i]));
        }
    }
}

} // verus!
