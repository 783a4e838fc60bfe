//! The access gate's backing file format.
//!
//! The access gate persists as one small JSON-shaped record,
//! `{"password_hash":<null or a quoted 64-digit hex string>,"locked":<bool>}`,
//! rewritten in full on every mutation. The renderer and parser here are
//! verified against one spec-level definition of that canonical form:
//! whatever this library writes parses back to the same state, and the
//! parser accepts nothing but canonical records. A file that is not
//! canonical — corrupt, foreign, or absent — loads as "no passcode
//! configured" instead of failing startup.

use vstd::prelude::*;
use crate::gate::{is_hex_char, PasswordData, PasswordState};

verus! {

/// The characters of `{"password_hash":`.
pub open spec fn json_prefix() -> Seq<char> {
    seq!['{', '"', 'p', 'a', 's', 's', 'w', 'o', 'r', 'd', '_', 'h', 'a', 's', 'h', '"', ':']
}

/// The characters of `,"locked":`.
pub open spec fn json_mid() -> Seq<char> {
    seq![',', '"', 'l', 'o', 'c', 'k', 'e', 'd', '"', ':']
}

/// The characters of `null`.
pub open spec fn json_null() -> Seq<char> {
    seq!['n', 'u', 'l', 'l']
}

/// The characters of `true}`.
pub open spec fn json_true_end() -> Seq<char> {
    seq!['t', 'r', 'u', 'e', '}']
}

/// The characters of `false}`.
pub open spec fn json_false_end() -> Seq<char> {
    seq!['f', 'a', 'l', 's', 'e', '}']
}

/// The canonical rendering of a gate state.
pub open spec fn render_chars(d: PasswordData) -> Seq<char> {
    json_prefix() + (match d.password_hash {
        Some(h) => seq!['"'] + h@ + seq!['"'],
        None => json_null(),
    }) + json_mid() + (if d.locked {
        json_true_end()
    } else {
        json_false_end()
    })
}

/// What a gate state says, independently of which strings carry it: the
/// digest characters, if any, and the stored lock flag.
pub open spec fn data_view(d: PasswordData) -> (Option<Seq<char>>, bool) {
    (
        match d.password_hash {
            Some(h) => Some(h@),
            None => None,
        },
        d.locked,
    )
}

/// Everything positional about a canonical rendering: its exact length for
/// each shape of state, and the character at every position.
proof fn lemma_render_shape(d: PasswordData)
    requires
        d.wf(),
    ensures
        d.password_hash is None && d.locked ==> render_chars(d).len() == 36,
        d.password_hash is None && !d.locked ==> render_chars(d).len() == 37,
        d.password_hash is Some && d.locked ==> render_chars(d).len() == 98,
        d.password_hash is Some && !d.locked ==> render_chars(d).len() == 99,
        forall|k: int| 0 <= k < 17 ==> render_chars(d)[k] == json_prefix()[k],
        d.password_hash is None ==> (forall|k: int|
            0 <= k < 4 ==> render_chars(d)[17 + k] == json_null()[k]),
        d.password_hash is None ==> (forall|k: int|
            0 <= k < 10 ==> render_chars(d)[21 + k] == json_mid()[k]),
        d.password_hash is None && d.locked ==> (forall|k: int|
            0 <= k < 5 ==> render_chars(d)[31 + k] == json_true_end()[k]),
        d.password_hash is None && !d.locked ==> (forall|k: int|
            0 <= k < 6 ==> render_chars(d)[31 + k] == json_false_end()[k]),
        d.password_hash matches Some(h) ==> render_chars(d)[17] == '"' && render_chars(d)[82]
            == '"' && (forall|k: int| 0 <= k < 64 ==> render_chars(d)[18 + k] == h@[k]),
        d.password_hash is Some ==> (forall|k: int|
            0 <= k < 10 ==> render_chars(d)[83 + k] == json_mid()[k]),
        d.password_hash is Some && d.locked ==> (forall|k: int|
            0 <= k < 5 ==> render_chars(d)[93 + k] == json_true_end()[k]),
        d.password_hash is Some && !d.locked ==> (forall|k: int|
            0 <= k < 6 ==> render_chars(d)[93 + k] == json_false_end()[k]),
{
}

/// Canonical renderings are injective up to the state they carry: two
/// well-formed states with the same rendering say the same thing.
pub proof fn lemma_render_injective(a: PasswordData, b: PasswordData)
    requires
        a.wf(),
        b.wf(),
        render_chars(a) == render_chars(b),
    ensures
        data_view(a) == data_view(b),
{
    lemma_render_shape(a);
    lemma_render_shape(b);
    match (a.password_hash, b.password_hash) {
        (Some(ha), Some(hb)) => {
            assert forall|k: int| 0 <= k < 64 implies ha@[k] == hb@[k] by {
                assert(render_chars(a)[18 + k] == ha@[k]);
                assert(render_chars(b)[18 + k] == hb@[k]);
            }
            assert(ha@ =~= hb@);
        },
        _ => {},
    }
}

/// Compares `pat` against the characters of `s` starting at `pos`.
fn match_lit(s: &str, pos: usize, pat: &str) -> (r: bool)
    requires
        pos + pat@.len() <= s@.len(),
        s@.len() <= usize::MAX,
    ensures
        r == (s@.subrange(pos as int, pos as int + pat@.len() as int) == pat@),
{
    let m = pat.unicode_len();
    let ghost sub = s@.subrange(pos as int, pos as int + m as int);
    let mut j: usize = 0;
    while j < m
        invariant
            0 <= j <= m,
            forall|k: int| 0 <= k < j ==> s@[pos + k] == pat@[k],
        decreases m - j,
    {
        if s.get_char(pos + j) != pat.get_char(j) {
            proof {
                assert(sub[j as int] == s@[pos + j]);
            }
            return false;
        }
        j += 1;
    }
    proof {
        assert(sub =~= pat@);
    }
    true
}

/// Renders a gate state in its canonical form.
pub fn render_password_data(d: &PasswordData) -> (r: String)
    requires
        d.wf(),
    ensures
        r@ == render_chars(*d),
{
    proof {
        reveal_strlit("{\"password_hash\":");
        reveal_strlit("null");
        reveal_strlit(",\"locked\":");
        reveal_strlit("true}");
        reveal_strlit("false}");
    }
    let mut out = String::from_str("{\"password_hash\":");
    proof {
        assert(out@ =~= json_prefix());
    }
    match &d.password_hash {
        Some(h) => {
            out.push('"');
            out.append(h.as_str());
            out.push('"');
            proof {
                assert(out@ =~= json_prefix() + (seq!['"'] + h@ + seq!['"']));
            }
        },
        None => {
            out.append("null");
            proof {
                assert(out@ =~= json_prefix() + json_null());
            }
        },
    }
    out.append(",\"locked\":");
    if d.locked {
        out.append("true}");
    } else {
        out.append("false}");
    }
    proof {
        assert(out@ =~= render_chars(*d));
    }
    out
}

/// Parses a canonical gate record. Returns the state it carries, or `None`
/// when the text is not the canonical rendering of any well-formed state.
pub fn parse_password_data(s: &str) -> (r: Option<PasswordData>)
    ensures
        match r {
            Some(d) => d.wf() && s@ == render_chars(d),
            None => forall|d: PasswordData| d.wf() ==> s@ != render_chars(d),
        },
{
    proof {
        reveal_strlit("{\"password_hash\":");
        reveal_strlit("null");
        reveal_strlit(",\"locked\":");
        reveal_strlit("true}");
        reveal_strlit("false}");
        assert(("{\"password_hash\":")@ =~= json_prefix());
        assert(("null")@ =~= json_null());
        assert((",\"locked\":")@ =~= json_mid());
        assert(("true}")@ =~= json_true_end());
        assert(("false}")@ =~= json_false_end());
    }
    let n = s.unicode_len();
    if !(n == 36 || n == 37 || n == 98 || n == 99) {
        proof {
            assert forall|d: PasswordData| d.wf() implies s@ != render_chars(d) by {
                lemma_render_shape(d);
            }
        }
        return None;
    }
    if !match_lit(s, 0, "{\"password_hash\":") {
        proof {
            assert forall|d: PasswordData| d.wf() implies s@ != render_chars(d) by {
                lemma_render_shape(d);
                if s@ == render_chars(d) {
                    assert(s@.subrange(0, 17) =~= json_prefix());
                }
            }
        }
        return None;
    }
    if n == 36 || n == 37 {
        let locked = n == 36;
        let tail_ok = if locked {
            match_lit(s, 31, "true}")
        } else {
            match_lit(s, 31, "false}")
        };
        if match_lit(s, 17, "null") && match_lit(s, 21, ",\"locked\":") && tail_ok {
            let d = PasswordData { password_hash: None, locked };
            proof {
                lemma_render_shape(d);
                assert(s@.subrange(17, 21) =~= json_null());
                assert(s@.subrange(21, 31) =~= json_mid());
                if locked {
                    assert(s@.subrange(31, 36) =~= json_true_end());
                } else {
                    assert(s@.subrange(31, 37) =~= json_false_end());
                }
                assert(s@ =~= render_chars(d));
            }
            return Some(d);
        }
        proof {
            assert forall|dd: PasswordData| dd.wf() implies s@ != render_chars(dd) by {
                lemma_render_shape(dd);
                if s@ == render_chars(dd) {
                    assert(dd.password_hash is None);
                    assert(dd.locked == locked);
                    assert(s@.subrange(17, 21) =~= json_null());
                    assert(s@.subrange(21, 31) =~= json_mid());
                    if locked {
                        assert(s@.subrange(31, 36) =~= json_true_end());
                    } else {
                        assert(s@.subrange(31, 37) =~= json_false_end());
                    }
                }
            }
        }
        return None;
    }
    // n == 98 || n == 99
    let locked = n == 98;
    proof {
        reveal_strlit("\"");
        assert(("\"")@ =~= seq!['"']);
    }
    let quotes_ok = match_lit(s, 17, "\"") && match_lit(s, 82, "\"");
    let tail_ok = if locked {
        match_lit(s, 93, "true}")
    } else {
        match_lit(s, 93, "false}")
    };
    if quotes_ok && match_lit(s, 83, ",\"locked\":") && tail_ok {
        // the 64 digest characters must all be hexadecimal
        let mut j: usize = 0;
        let mut all_hex = true;
        while j < 64
            invariant
                0 <= j <= 64,
                s@.len() == n,
                n == 98 || n == 99,
                all_hex == (forall|k: int| 0 <= k < j ==> is_hex_char(#[trigger] s@[18 + k])),
            decreases 64 - j,
        {
            let c = s.get_char(18 + j);
            let v = c as u32;
            let ok = (48 <= v && v <= 57) || (97 <= v && v <= 102);
            all_hex = all_hex && ok;
            j += 1;
        }
        if all_hex {
            let hash = s.substring_char(18, 82);
            let d = PasswordData { password_hash: Some(String::from_str(hash)), locked };
            proof {
                let h = s@.subrange(18, 82);
                assert(h.len() == 64);
                assert forall|k: int| 0 <= k < 64 implies is_hex_char(#[trigger] h[k]) by {
                    assert(h[k] == s@[18 + k]);
                }
                assert(d.wf());
                lemma_render_shape(d);
                assert(s@.subrange(17, 18) =~= seq!['"']);
                assert(s@.subrange(82, 83) =~= seq!['"']);
                assert(s@.subrange(83, 93) =~= json_mid());
                if locked {
                    assert(s@.subrange(93, 98) =~= json_true_end());
                } else {
                    assert(s@.subrange(93, 99) =~= json_false_end());
                }
                assert(s@ =~= render_chars(d));
            }
            return Some(d);
        }
        proof {
            assert forall|dd: PasswordData| dd.wf() implies s@ != render_chars(dd) by {
                lemma_render_shape(dd);
                if s@ == render_chars(dd) {
                    assert(dd.password_hash is Some);
                    let h = dd.password_hash->0;
                    assert forall|k: int| 0 <= k < 64 implies is_hex_char(
                        #[trigger] s@[18 + k],
                    ) by {
                        assert(s@[18 + k] == h@[k]);
                    }
                }
            }
        }
        return None;
    }
    proof {
        assert forall|dd: PasswordData| dd.wf() implies s@ != render_chars(dd) by {
            lemma_render_shape(dd);
            if s@ == render_chars(dd) {
                assert(dd.password_hash is Some);
                assert(dd.locked == locked);
                assert(s@.subrange(17, 18) =~= seq!['"']);
                assert(s@.subrange(82, 83) =~= seq!['"']);
                assert(s@.subrange(83, 93) =~= json_mid());
                if locked {
                    assert(s@.subrange(93, 98) =~= json_true_end());
                } else {
                    assert(s@.subrange(93, 99) =~= json_false_end());
                }
            }
        }
    }
    None
}

impl PasswordState {
    /// Builds the access gate state from the text of its backing file, `None`
    /// standing for a file that is absent or unreadable. The canonical
    /// record of any well-formed state loads back to exactly that state —
    /// persisting and reloading is the identity on what the state says —
    /// and a file that is not a canonical record is treated as "no
    /// passcode configured" rather than an error, so the application stays
    /// usable after corruption.
    pub fn load_from_text(text: Option<&str>) -> (st: PasswordState)
        ensures
            st.wf(),
            text is None ==> !st.has_pin() && st.password_data.locked == false,
            text matches Some(s) ==> (s@ == render_chars(st.password_data) || (!st.has_pin()
                && st.password_data.locked == false)),
            text matches Some(s) ==> (forall|d: PasswordData|
                d.wf() && s@ == render_chars(d) ==> data_view(st.password_data) == data_view(d)),
            text matches Some(s) && (forall|d: PasswordData| d.wf() ==> s@ != render_chars(d))
                ==> !st.has_pin() && st.password_data.locked == false,
    {
        match text {
            Some(s) => match parse_password_data(s) {
                Some(d) => {
                    let st = PasswordState { password_data: d };
                    proof {
                        assert forall|d2: PasswordData|
                            d2.wf() && s@ == render_chars(d2) implies data_view(st.password_data)
                            == data_view(d2) by {
                            lemma_render_injective(st.password_data, d2);
                        }
                    }
                    st
                },
                None => PasswordState {
                    password_data: PasswordData { password_hash: None, locked: false },
                },
            },
            None => PasswordState {
                password_data: PasswordData { password_hash: None, locked: false },
            },
        }
    }
}

/// Round trip: rendering any well-formed gate state and parsing the result
/// yields a state that says exactly the same thing — same digest, same
/// lock flag. Stated against `parse_password_data`'s contract: any result
/// it allows on a rendered state is `Some` of an equivalent state.
pub proof fn lemma_passfile_round_trip(d: PasswordData, r: Option<PasswordData>)
    requires
        d.wf(),
        (match r {
            Some(x) => x.wf() && render_chars(d) == render_chars(x),
            None => forall|x: PasswordData| x.wf() ==> render_chars(d) != render_chars(x),
        }),
    ensures
        r matches Some(x) && data_view(x) == data_view(d),
{
    match r {
        Some(x) => {
            lemma_render_injective(x, d);
        },
        None => {
            assert(render_chars(d) == render_chars(d));
        },
    }
}

} // verus!
