//! Positional parameters: `"$N"` in a template names the N-th caller-supplied string.
use vstd::prelude::*;
use crate::json::{Json, JsonValue, json_str};
use crate::text::{all_digits, chars_of, digit_value, digits_value, is_digit};

verus! {

/// The position N named by a reference `$N`: a `$`, then digits without a leading zero.
pub open spec fn param_position(s: Seq<char>) -> Option<nat> {
    if s.len() >= 2 && s[0] == '$' && '1' <= s[1] && s[1] <= '9' && all_digits(s.drop_first()) {
        Some(digits_value(s.drop_first()))
    } else {
        None
    }
}

/// The views of the parameter strings.
pub open spec fn texts(params: Seq<String>) -> Seq<Seq<char>> {
    params.map_values(|p: String| p@)
}

/// The parameter that `s` refers to, where it refers to one that exists.
pub open spec fn param_for(s: Seq<char>, params: Seq<Seq<char>>) -> Option<Seq<char>> {
    match param_position(s) {
        Some(n) => if 1 <= n <= params.len() {
            Some(params[n - 1])
        } else {
            None
        },
        None => None,
    }
}

/// A value with a parameter reference replaced by the parameter; anything else unchanged.
pub open spec fn resolve(v: Json, params: Seq<Seq<char>>) -> Json {
    match v {
        Json::Str(s) => match param_for(s, params) {
            Some(p) => Json::Str(p),
            None => v,
        },
        _ => v,
    }
}

pub proof fn lemma_digits_prefix_le(s: Seq<char>, k: int)
    requires
        0 <= k <= s.len(),
        all_digits(s),
    ensures
        digits_value(s.subrange(0, k)) <= digits_value(s),
    decreases s.len() - k,
{
    if k < s.len() {
        lemma_digits_prefix_le(s, k + 1);
        let p = s.subrange(0, k + 1);
        assert(p.drop_last() =~= s.subrange(0, k));
    } else {
        assert(s.subrange(0, k) =~= s);
    }
}

proof fn lemma_position_positive(s: Seq<char>)
    ensures
        param_position(s) matches Some(n) ==> n >= 1,
{
    if param_position(s) is Some {
        let body = s.drop_first();
        lemma_digits_prefix_le(body, 1);
        assert(body.subrange(0, 1).drop_last() =~= Seq::<char>::empty());
    }
}

/// The 0-based index of the parameter that `value` refers to.
pub fn param_index(value: &str) -> (r: Option<usize>)
    ensures
        match param_position(value@) {
            Some(n) => if n <= usize::MAX {
                r == Some((n - 1) as usize)
            } else {
                r is None
            },
            None => r is None,
        },
        param_position(value@) matches Some(n) ==> n >= 1,
{
    proof {
        lemma_position_positive(value@);
    }
    let cs = chars_of(value);
    if cs.len() < 2 || cs[0] != '$' || cs[1] < '1' || cs[1] > '9' {
        return None;
    }
    let ghost body = value@.drop_first();
    let mut acc: usize = 0;
    let mut i: usize = 1;
    while i < cs.len()
        invariant
            cs@ == value@,
            body == value@.drop_first(),
            1 <= i <= cs@.len(),
            all_digits(body.subrange(0, i - 1)),
            acc as nat == digits_value(body.subrange(0, i - 1)),
        decreases cs@.len() - i,
    {
        let c = cs[i];
        if c < '0' || c > '9' {
            assert(!is_digit(body[i - 1]));
            return None;
        }
        let d = (c as u32 - '0' as u32) as usize;
        let ghost pre = body.subrange(0, i as int);
        assert(pre.drop_last() =~= body.subrange(0, i - 1));
        assert(d == digit_value(c));
        match acc.checked_mul(10) {
            Some(m) => match m.checked_add(d) {
                Some(a) => {
                    acc = a;
                },
                None => {
                    proof {
                        assert(all_digits(pre));
                        assert(digits_value(pre) > usize::MAX);
                        if all_digits(body) {
                            lemma_digits_prefix_le(body, i as int);
                        }
                    }
                    return None;
                },
            },
            None => {
                proof {
                    assert(all_digits(pre));
                    assert(digits_value(pre) >= acc * 10);
                    if all_digits(body) {
                        lemma_digits_prefix_le(body, i as int);
                    }
                }
                return None;
            },
        }
        i = i + 1;
    }
    assert(body.subrange(0, i - 1) =~= body);
    proof {
        lemma_digits_prefix_le(body, 1);
        assert(body.subrange(0, 1).drop_last() =~= Seq::<char>::empty());
    }
    Some(acc - 1)
}

/// The parameter that `value` refers to, or a copy of `value`.
pub fn resolve_value(value: &JsonValue, params: &Vec<String>) -> (r: JsonValue)
    ensures
        r@ == resolve(value@, texts(params@)),
{
    let count = params.len();
    assert(texts(params@).len() == count);
    if let JsonValue::Str(s) = value {
        if let Some(index) = param_index(s.as_str()) {
            if index < params.len() {
                assert(texts(params@)[index as int] == params@[index as int]@);
                return json_str(params[index].as_str());
            }
        }
    }
    value.duplicate()
}

/// The parameter that `s` refers to, or `s` itself.
pub fn resolve_text(s: &str, params: &Vec<String>) -> (r: String)
    ensures
        r@ == match param_for(s@, texts(params@)) {
            Some(p) => p,
            None => s@,
        },
{
    let count = params.len();
    assert(texts(params@).len() == count);
    let cs = match param_index(s) {
        Some(index) => if index < params.len() {
            assert(texts(params@)[index as int] == params@[index as int]@);
            chars_of(params[index].as_str())
        } else {
            chars_of(s)
        },
        None => chars_of(s),
    };
    crate::text::string_of(&cs)
}

} // verus!
