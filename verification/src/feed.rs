//! Textual pieces of the feed adapter's contract: the side tokens that
//! label a level change, and the channel-subscription message.

use vstd::prelude::*;
use crate::orderbook::Side;

verus! {

/// Whether `s` spells the bid token `"buy"`, ignoring ASCII case.
pub open spec fn is_buy_token(s: Seq<char>) -> bool {
    &&& s.len() == 3
    &&& (s[0] == 'b' || s[0] == 'B')
    &&& (s[1] == 'u' || s[1] == 'U')
    &&& (s[2] == 'y' || s[2] == 'Y')
}

/// Whether `s` spells the ask token `"sell"`, ignoring ASCII case.
pub open spec fn is_sell_token(s: Seq<char>) -> bool {
    &&& s.len() == 4
    &&& (s[0] == 's' || s[0] == 'S')
    &&& (s[1] == 'e' || s[1] == 'E')
    &&& (s[2] == 'l' || s[2] == 'L')
    &&& (s[3] == 'l' || s[3] == 'L')
}

/// Maps a side token onto a side: case-insensitive `"buy"` is the bid side
/// and `"sell"` the ask side; any other token is a decode failure.
pub fn parse_side(s: &str) -> (r: Option<Side>)
    ensures
        r == (if is_buy_token(s@) {
            Option::Some(Side::Buy)
        } else if is_sell_token(s@) {
            Option::Some(Side::Sell)
        } else {
            Option::<Side>::None
        }),
{
    let n: usize = s.unicode_len();
    if n == 3 {
        let c0 = s.get_char(0);
        let c1 = s.get_char(1);
        let c2 = s.get_char(2);
        if (c0 == 'b' || c0 == 'B') && (c1 == 'u' || c1 == 'U') && (c2 == 'y' || c2 == 'Y') {
            Some(Side::Buy)
        } else {
            None
        }
    } else if n == 4 {
        let c0 = s.get_char(0);
        let c1 = s.get_char(1);
        let c2 = s.get_char(2);
        let c3 = s.get_char(3);
        if (c0 == 's' || c0 == 'S') && (c1 == 'e' || c1 == 'E') && (c2 == 'l' || c2 == 'L') && (c3
            == 'l' || c3 == 'L') {
            Some(Side::Sell)
        } else {
            None
        }
    } else {
        None
    }
}

/// The channel-subscription text the feed expects: a JSON object naming the
/// channel to join and the product to stream.
pub fn subscribe_message(channel: &str, product_id: &str) -> (r: String)
    ensures
        r@ == "{\"channels\":[\""@ + channel@ + "\"],\"product_ids\":[\""@ + product_id@
            + "\"],\"type\":\"subscribe\"}"@,
{
    let mut out = String::new();
    out.append("{\"channels\":[\"");
    out.append(channel);
    out.append("\"],\"product_ids\":[\"");
    out.append(product_id);
    out.append("\"],\"type\":\"subscribe\"}");
    proof {
        assert(out@ =~= "{\"channels\":[\""@ + channel@ + "\"],\"product_ids\":[\""@ + product_id@
            + "\"],\"type\":\"subscribe\"}"@);
    }
    out
}

} // verus!
