//! Conversion of trading symbols between the standard form (`eth_usdt`) and
//! the form each venue uses on its own API (`ETHUSDT`, `ETH-USDT-SWAP`, ...).
use vstd::prelude::*;
use crate::text::{
    ascii_lower, ascii_upper, lemma_first_piece_concat, lemma_first_piece_head, lemma_no_match_first,
    lemma_replace_absent, lemma_replace_concat, lemma_replace_head, matches_at, first_piece, first_piece_of, replace_all, replace_seq, split_by_char, split_char, str_eq, to_lower,
    to_upper, lower_text, upper_text,
};

verus! {

/// Whether `exchange` is one of the venues the conversions know.
pub open spec fn is_known_exchange(exchange: Seq<char>) -> bool {
    ||| exchange == "binance"@
    ||| exchange == "okx"@
    ||| exchange == "bybit"@
    ||| exchange == "bitget"@
    ||| exchange == "kucoin"@
    ||| exchange == "gate"@
}

/// Whether `etype` is one of the market types the conversions know.
pub open spec fn is_known_etype(etype: Seq<char>) -> bool {
    etype == "spot"@ || etype == "swap"@
}

/// Whether the pair (exchange, market type) is one the conversions handle.
pub open spec fn is_known_venue(exchange: Seq<char>, etype: Seq<char>) -> bool {
    is_known_exchange(exchange) && is_known_etype(etype)
}

/// The venue form of a standard symbol, before upper-casing.
pub open spec fn std2plat_body(symbol: Seq<char>, exchange: Seq<char>, etype: Seq<char>) -> Seq<char> {
    if exchange == "okx"@ {
        if etype == "spot"@ {
            replace_seq(symbol, "_"@, "-"@)
        } else {
            replace_seq(symbol, "_usdt"@, "-usdt-swap"@)
        }
    } else if exchange == "kucoin"@ {
        if etype == "spot"@ {
            replace_seq(symbol, "_"@, "-"@)
        } else {
            replace_seq(symbol, "_usdt"@, "USDTM"@)
        }
    } else if exchange == "gate"@ {
        symbol
    } else {
        replace_seq(symbol, "_"@, ""@)
    }
}

/// The venue form of a standard symbol.
pub open spec fn std2plat(symbol: Seq<char>, exchange: Seq<char>, etype: Seq<char>) -> Seq<char> {
    upper_text(std2plat_body(symbol, exchange, etype))
}

/// The standard form of a venue symbol.
pub open spec fn plat2std(symbol: Seq<char>, exchange: Seq<char>, etype: Seq<char>) -> Seq<char> {
    if (exchange == "okx"@ || exchange == "kucoin"@) && etype == "spot"@ {
        lower_text(replace_seq(symbol, "-"@, "_"@))
    } else if exchange == "okx"@ {
        lower_text(first_piece(symbol, "-USDT-SWAP"@)) + "_usdt"@
    } else if exchange == "gate"@ {
        lower_text(symbol)
    } else {
        lower_text(first_piece(symbol, "USDT"@)) + "_usdt"@
    }
}

/// Converts a standard symbol such as `eth_usdt` to the form `exchange` uses
/// for market type `etype`. The pair must be a known venue (the conversion
/// has no answer for any other).
pub fn symbol_std2plat(symbolstr: &str, exchange: &str, etype: &str) -> (r: String)
    requires
        is_known_venue(exchange@, etype@),
    ensures
        r@ == std2plat(symbolstr@, exchange@, etype@),
{
    let is_okx = str_eq(exchange, "okx");
    let is_kucoin = str_eq(exchange, "kucoin");
    let is_gate = str_eq(exchange, "gate");
    let is_spot = str_eq(etype, "spot");
    proof {
        reveal_strlit("_");
        reveal_strlit("_usdt");
    }
    let body = if is_okx {
        if is_spot {
            replace_all(symbolstr, "_", "-")
        } else {
            replace_all(symbolstr, "_usdt", "-usdt-swap")
        }
    } else if is_kucoin {
        if is_spot {
            replace_all(symbolstr, "_", "-")
        } else {
            replace_all(symbolstr, "_usdt", "USDTM")
        }
    } else if is_gate {
        symbolstr.to_owned()
    } else {
        replace_all(symbolstr, "_", "")
    };
    to_upper(body.as_str())
}

/// Converts a venue symbol back to the standard form, such as
/// `ETH-USDT-SWAP` on okx swap to `eth_usdt`. The pair must be a known venue.
pub fn symbol_plat2std(symbolstr: &str, exchange: &str, etype: &str) -> (r: String)
    requires
        is_known_venue(exchange@, etype@),
    ensures
        r@ == plat2std(symbolstr@, exchange@, etype@),
{
    let is_okx = str_eq(exchange, "okx");
    let is_kucoin = str_eq(exchange, "kucoin");
    let is_gate = str_eq(exchange, "gate");
    let is_spot = str_eq(etype, "spot");
    proof {
        reveal_strlit("-");
        reveal_strlit("USDT");
        reveal_strlit("-USDT-SWAP");
    }
    if (is_okx || is_kucoin) && is_spot {
        let replaced = replace_all(symbolstr, "-", "_");
        to_lower(replaced.as_str())
    } else if is_okx {
        let head = first_piece_of(symbolstr, "-USDT-SWAP");
        let lower = to_lower(head.as_str());
        lower.concat("_usdt")
    } else if is_gate {
        to_lower(symbolstr)
    } else {
        let head = first_piece_of(symbolstr, "USDT");
        let lower = to_lower(head.as_str());
        lower.concat("_usdt")
    }
}

/// Splits a standard symbol `token_quote` into its token and its quote: the
/// pieces before and after the first `_` (up to a second `_`, if any). The
/// symbol must hold a `_`.
pub fn get_token_quote_from_symbol(symbol: &str) -> (r: (String, String))
    requires
        split_char(symbol@, '_').len() >= 2,
    ensures
        r.0@ == split_char(symbol@, '_')[0],
        r.1@ == split_char(symbol@, '_')[1],
{
    let mut parts = split_by_char(symbol, '_');
    let second = parts.remove(1);
    let first = parts.remove(0);
    (first, second)
}

/// Whether a character may stand in the token of a symbol that the
/// conversions carry both ways: a lowercase ASCII letter or a digit.
pub open spec fn is_token_char(c: char) -> bool {
    ('a' <= c && c <= 'z') || ('0' <= c && c <= '9')
}

/// Whether `base` is a token that the conversions carry both ways:
/// lowercase ASCII letters and digits, with no `usdt` in it.
pub open spec fn is_plain_token(base: Seq<char>) -> bool {
    &&& forall|i: int| 0 <= i < base.len() ==> is_token_char(#[trigger] base[i])
    &&& forall|i: int| !#[trigger] matches_at(base, i, "usdt"@)
}

spec fn up(s: Seq<char>) -> Seq<char> {
    s.map_values(|c: char| ascii_upper(c))
}

spec fn low(s: Seq<char>) -> Seq<char> {
    s.map_values(|c: char| ascii_lower(c))
}

proof fn lemma_case_concat(a: Seq<char>, b: Seq<char>)
    ensures
        up(a + b) == up(a) + up(b),
        low(a + b) == low(a) + low(b),
        vstd::utf8::is_ascii_chars(a) && vstd::utf8::is_ascii_chars(b) ==> vstd::utf8::is_ascii_chars(
            a + b,
        ),
{
    assert(up(a + b) =~= up(a) + up(b));
    assert(low(a + b) =~= low(a) + low(b));
    if vstd::utf8::is_ascii_chars(a) && vstd::utf8::is_ascii_chars(b) {
        assert forall|i: int| 0 <= i < (a + b).len() implies '\0' <= #[trigger] (a + b)[i] <= '\u{7f}' by {
            if i < a.len() {
                assert((a + b)[i] == a[i]);
            } else {
                assert((a + b)[i] == b[i - a.len()]);
            }
        }
    }
}

proof fn lemma_token_case(base: Seq<char>)
    requires
        forall|i: int| 0 <= i < base.len() ==> is_token_char(#[trigger] base[i]),
    ensures
        vstd::utf8::is_ascii_chars(base),
        vstd::utf8::is_ascii_chars(up(base)),
        low(up(base)) == base,
        forall|i: int| 0 <= i < base.len() ==> {
            let u = #[trigger] up(base)[i];
            &&& u != '_' && u != '-'
            &&& (u == 'U' ==> base[i] == 'u')
            &&& (u == 'S' ==> base[i] == 's')
            &&& (u == 'D' ==> base[i] == 'd')
            &&& (u == 'T' ==> base[i] == 't')
        },
{
    assert forall|i: int| 0 <= i < base.len() implies '\0' <= #[trigger] base[i] <= '\u{7f}' by {
        assert(is_token_char(base[i]));
    }
    assert forall|i: int| 0 <= i < up(base).len() implies '\0' <= #[trigger] up(base)[i] <= '\u{7f}' by {
        assert(is_token_char(base[i]));
    }
    assert forall|i: int| 0 <= i < base.len() implies low(up(base))[i] == base[i] by {
        assert(is_token_char(base[i]));
    }
    assert(low(up(base)) =~= base);
}

proof fn lemma_no_usdt(base: Seq<char>, tail: Seq<char>)
    requires
        is_plain_token(base),
        tail.len() >= 1,
        tail[0] == 'U',
    ensures
        forall|i: int| 0 <= i < base.len() ==> !#[trigger] matches_at(up(base) + tail, i, "USDT"@),
{
    reveal_strlit("USDT");
    reveal_strlit("usdt");
    lemma_token_case(base);
    let x = up(base) + tail;
    let n = base.len() as int;
    assert forall|i: int| 0 <= i < n implies !#[trigger] matches_at(x, i, "USDT"@) by {
        if matches_at(x, i, "USDT"@) {
            let w = x.subrange(i, i + 4);
            assert(w == "USDT"@);
            if i + 4 <= n {
                assert forall|k: int| 0 <= k < 4 implies base[i + k] == "usdt"@[k] by {
                    assert(w[k] == x[i + k]);
                    assert(x[i + k] == up(base)[i + k]);
                }
                assert(base.subrange(i, i + 4) =~= "usdt"@);
                assert(matches_at(base, i, "usdt"@));
            } else {
                let j = n - i;
                assert(w[j] == x[n]);
                assert(x[n] == tail[0]);
            }
        }
    }
}

/// A standard symbol `<token>_usdt` comes back from the form of any known
/// venue unchanged: converting it to the venue's form and back gives it
/// again, for every token of lowercase ASCII letters and digits that holds
/// no `usdt`.
pub proof fn law_symbol_round_trip(base: Seq<char>, exchange: Seq<char>, etype: Seq<char>)
    requires
        is_plain_token(base),
        is_known_venue(exchange, etype),
    ensures
        plat2std(std2plat(base + "_usdt"@, exchange, etype), exchange, etype) == base + "_usdt"@,
{
    reveal_strlit("_usdt");
    reveal_strlit("_");
    reveal_strlit("-");
    reveal_strlit("");
    reveal_strlit("usdt");
    reveal_strlit("-usdt-swap");
    reveal_strlit("USDTM");
    reveal_strlit("USDT");
    reveal_strlit("-USDT-SWAP");
    reveal_strlit("_USDT");
    reveal_strlit("okx");
    reveal_strlit("kucoin");
    reveal_strlit("gate");
    reveal_strlit("spot");
    reveal_strlit("swap");
    reveal_strlit("binance");
    reveal_strlit("bybit");
    reveal_strlit("bitget");
    lemma_token_case(base);
    let s = base + "_usdt"@;
    let n = base.len() as int;
    let ub = up(base);
    assert forall|i: int| 0 <= i < n implies #[trigger] s[i] == base[i] by {}
    if (exchange == "okx"@ || exchange == "kucoin"@) && etype == "spot"@ {
        assert forall|i: int| 0 <= i < n implies !#[trigger] matches_at(s, i, "_"@) by {
            lemma_no_match_first(s, i, "_"@);
        }
        lemma_replace_concat(base, "_usdt"@, "_"@, "-"@);
        assert("_usdt"@ =~= "_"@ + "usdt"@);
        lemma_replace_head("_"@, "usdt"@, "-"@);
        assert("_"@ =~= seq!['_']);
        lemma_replace_absent("usdt"@, '_', "-"@);
        let body = base + ("-"@ + "usdt"@);
        assert(std2plat_body(s, exchange, etype) == body);
        lemma_case_concat("-"@, "usdt"@);
        lemma_case_concat(base, "-"@ + "usdt"@);
        assert(up("-"@ + "usdt"@) =~= "-"@ + "USDT"@);
        let x = ub + ("-"@ + "USDT"@);
        assert(std2plat(s, exchange, etype) == x);
        assert forall|i: int| 0 <= i < n implies !#[trigger] matches_at(x, i, "-"@) by {
            assert(x[i] == ub[i]);
            lemma_no_match_first(x, i, "-"@);
        }
        lemma_replace_concat(ub, "-"@ + "USDT"@, "-"@, "_"@);
        lemma_replace_head("-"@, "USDT"@, "_"@);
        assert("-"@ =~= seq!['-']);
        lemma_replace_absent("USDT"@, '-', "_"@);
        let y = ub + ("_"@ + "USDT"@);
        assert(replace_seq(x, "-"@, "_"@) == y);
        lemma_case_concat("_"@, "USDT"@);
        lemma_case_concat(ub, "_"@ + "USDT"@);
        assert(low("_"@ + "USDT"@) =~= "_usdt"@);
    } else if exchange == "okx"@ {
        assert forall|i: int| 0 <= i < n implies !#[trigger] matches_at(s, i, "_usdt"@) by {
            lemma_no_match_first(s, i, "_usdt"@);
        }
        lemma_replace_concat(base, "_usdt"@, "_usdt"@, "-usdt-swap"@);
        assert("_usdt"@ =~= "_usdt"@ + Seq::<char>::empty());
        lemma_replace_head("_usdt"@, Seq::<char>::empty(), "-usdt-swap"@);
        assert("-usdt-swap"@ + Seq::<char>::empty() =~= "-usdt-swap"@);
        let body = base + "-usdt-swap"@;
        assert(std2plat_body(s, exchange, etype) == body);
        lemma_case_concat(base, "-usdt-swap"@);
        assert(up("-usdt-swap"@) =~= "-USDT-SWAP"@);
        let x = ub + "-USDT-SWAP"@;
        assert(std2plat(s, exchange, etype) == x);
        assert forall|i: int| 0 <= i < n implies !#[trigger] matches_at(x, i, "-USDT-SWAP"@) by {
            assert(x[i] == ub[i]);
            lemma_no_match_first(x, i, "-USDT-SWAP"@);
        }
        lemma_first_piece_concat(ub, "-USDT-SWAP"@, "-USDT-SWAP"@);
        assert("-USDT-SWAP"@ =~= "-USDT-SWAP"@ + Seq::<char>::empty());
        lemma_first_piece_head("-USDT-SWAP"@, Seq::<char>::empty());
        assert(first_piece(x, "-USDT-SWAP"@) =~= ub);
    } else if exchange == "gate"@ {
        assert("okx"@.len() == 3 && "kucoin"@.len() == 6 && "gate"@.len() == 4);
        assert(std2plat_body(s, exchange, etype) == s);
        lemma_case_concat(base, "_usdt"@);
        assert(up("_usdt"@) =~= "_USDT"@);
        let x = ub + "_USDT"@;
        assert(std2plat(s, exchange, etype) == x);
        lemma_case_concat(ub, "_USDT"@);
        assert(low("_USDT"@) =~= "_usdt"@);
    } else {
        let tail = if exchange == "kucoin"@ {
            "USDTM"@
        } else {
            "usdt"@
        };
        if exchange == "kucoin"@ {
            assert forall|i: int| 0 <= i < n implies !#[trigger] matches_at(s, i, "_usdt"@) by {
                lemma_no_match_first(s, i, "_usdt"@);
            }
            lemma_replace_concat(base, "_usdt"@, "_usdt"@, "USDTM"@);
            assert("_usdt"@ =~= "_usdt"@ + Seq::<char>::empty());
            lemma_replace_head("_usdt"@, Seq::<char>::empty(), "USDTM"@);
            assert("USDTM"@ + Seq::<char>::empty() =~= "USDTM"@);
        } else {
            assert forall|i: int| 0 <= i < n implies !#[trigger] matches_at(s, i, "_"@) by {
                lemma_no_match_first(s, i, "_"@);
            }
            lemma_replace_concat(base, "_usdt"@, "_"@, ""@);
            assert("_usdt"@ =~= "_"@ + "usdt"@);
            lemma_replace_head("_"@, "usdt"@, ""@);
            assert("_"@ =~= seq!['_']);
            lemma_replace_absent("usdt"@, '_', ""@);
            assert(""@ + "usdt"@ =~= "usdt"@);
        }
        let body = base + tail;
        assert(std2plat_body(s, exchange, etype) == body);
        lemma_case_concat(base, tail);
        let ut = up(tail);
        assert(ut =~= "USDT"@ + (if exchange == "kucoin"@ {
            seq!['M']
        } else {
            Seq::<char>::empty()
        }));
        let x = ub + ut;
        assert(std2plat(s, exchange, etype) == x);
        lemma_no_usdt(base, ut);
        lemma_first_piece_concat(ub, ut, "USDT"@);
        lemma_first_piece_head("USDT"@, ut.skip(4));
        assert(ut =~= "USDT"@ + ut.skip(4));
        assert(first_piece(x, "USDT"@) =~= ub);
    }
}

} // verus!
