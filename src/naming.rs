use vstd::prelude::*;
use vstd::string::StrSliceExecFns;
use vstd::string::StringExecFns;

verus! {

/// The decimal digits, indexed by their value.
pub open spec fn digit_chars() -> Seq<char> {
    "0123456789"@
}

/// `n` in decimal, padded on the left with zeros to at least `width` digits.
pub open spec fn padded_decimal(n: nat, width: nat) -> Seq<char>
    decreases n + width,
{
    if n < 10 && width <= 1 {
        seq![digit_chars()[n as int]]
    } else {
        padded_decimal(n / 10, if width > 0 { (width - 1) as nat } else { 0 }).push(
            digit_chars()[(n % 10) as int],
        )
    }
}

/// The display name of a token: `"<coin> Echo #<id, three digits at least>"`.
pub open spec fn display_name_spec(coin: Seq<char>, token_id: nat) -> Seq<char> {
    coin + " Echo #"@ + padded_decimal(token_id, 3)
}

fn append_padded_decimal(s: &mut String, n: u64, width: u64)
    ensures
        final(s)@ == old(s)@ + padded_decimal(n as nat, width as nat),
    decreases n + width,
{
    let digits = "0123456789";
    proof {
        reveal_strlit("0123456789");
    }
    let d: usize = (n % 10) as usize;
    let digit = digits.substring_char(d, d + 1);
    if n < 10 && width <= 1 {
        s.append(digit);
        assert(s@ =~= old(s)@ + padded_decimal(n as nat, width as nat));
    } else {
        let w: u64 = if width > 0 { width - 1 } else { 0 };
        append_padded_decimal(s, n / 10, w);
        s.append(digit);
        assert(s@ =~= old(s)@ + padded_decimal(n as nat, width as nat));
    }
}

/// Builds the display name of token `token_id` minted for `coin`.
pub fn display_name(coin: &str, token_id: u64) -> (r: String)
    ensures
        r@ == display_name_spec(coin@, token_id as nat),
{
    let mut s = String::from_str(coin);
    s.append(" Echo #");
    append_padded_decimal(&mut s, token_id, 3);
    assert(s@ =~= display_name_spec(coin@, token_id as nat));
    s
}

} // verus!
