//! Signed player skins.
//!
//! A skin is a pair of opaque strings — the textures payload and its
//! signature — handed over by the profile service as properties of a
//! profile. The selection logic finds the textures property and accepts it
//! only when both strings are well-formed standard base64; fetching and
//! caching the profile is the caller's business.

use vstd::prelude::*;
use vstd::string::StringExecFns;

verus! {

/// A signed player skin: the textures payload and its signature, both kept
/// as the base64 strings the profile service handed over.
pub struct PlayerSkin {
    /// The textures of the player skin, as a base64 string.
    pub textures: String,
    /// The signature of the player skin, as a base64 string.
    pub signature: String,
}

impl PlayerSkin {
    /// A skin from its two base64 strings.
    pub fn new(textures: String, signature: String) -> (r: PlayerSkin)
        ensures
            r.textures == textures,
            r.signature == signature,
    {
        PlayerSkin { textures, signature }
    }
}

/// One property of a profile: a name, a value, and possibly a signature
/// over the value.
pub struct SkinProperty {
    /// The property's name.
    pub name: String,
    /// The property's value.
    pub value: String,
    /// The signature over the value, when the service signed it.
    pub signature: Option<String>,
}

/// Why a textures property was rejected.
#[derive(Clone, Copy, Debug, PartialEq, Eq, Structural)]
pub enum SkinError {
    /// The textures property carries no signature.
    MissingSignature,
    /// The textures value is not valid base64.
    InvalidTexture,
    /// The signature is not valid base64.
    InvalidSignature,
}

/// What decoding a string as standard base64 yields. The result is a
/// function of the characters alone.
pub uninterp spec fn base64_decode_of(s: Seq<char>) -> Option<Seq<u8>>;

/// Relies on base64's standard engine: decoding is deterministic in the
/// input string, succeeding exactly on well-formed standard base64.
#[verifier::external_body]
fn base64_check(s: &str) -> (r: Option<Vec<u8>>)
    ensures
        r matches Some(v) ==> base64_decode_of(s@) == Some(v@),
        r is None ==> base64_decode_of(s@) is None,
{
    match base64::Engine::decode(&base64::engine::general_purpose::STANDARD, s) {
        Ok(v) => Some(v),
        Err(_) => None,
    }
}

/// Whether a property is the textures property.
pub open spec fn is_textures(p: SkinProperty) -> bool {
    p.name@ == "textures"@
}

/// The index of the first textures property, or `-1` when there is none.
pub open spec fn find_textures(ps: Seq<SkinProperty>) -> int
    decreases ps.len(),
{
    if ps.len() == 0 {
        -1
    } else if is_textures(ps[0]) {
        0
    } else {
        let r = find_textures(ps.skip(1));
        if r < 0 {
            -1
        } else {
            1 + r
        }
    }
}

/// The first textures index is a textures property, and nothing before it
/// is one; when it is `-1` no property is one.
proof fn lemma_find_textures(ps: Seq<SkinProperty>)
    ensures
        find_textures(ps) >= 0 ==> find_textures(ps) < ps.len() && is_textures(
            ps[find_textures(ps)],
        ) && (forall|j: int| 0 <= j < find_textures(ps) ==> !is_textures(#[trigger] ps[j])),
        find_textures(ps) < 0 ==> (forall|j: int|
            0 <= j < ps.len() ==> !is_textures(#[trigger] ps[j])),
    decreases ps.len(),
{
    if ps.len() == 0 {
    } else if is_textures(ps[0]) {
    } else {
        let t = ps.skip(1);
        lemma_find_textures(t);
        if find_textures(ps) >= 0 {
            assert(ps[find_textures(ps)] == t[find_textures(t)]);
            assert forall|j: int| 0 <= j < find_textures(ps) implies !is_textures(
                #[trigger] ps[j],
            ) by {
                if j >= 1 {
                    assert(ps[j] == t[j - 1]);
                }
            }
        } else {
            assert forall|j: int| 0 <= j < ps.len() implies !is_textures(#[trigger] ps[j]) by {
                if j >= 1 {
                    assert(ps[j] == t[j - 1]);
                }
            }
        }
    }
}

/// Picks the signed skin out of a profile's properties: the first property
/// named `textures` gives the skin, after its value and signature are
/// checked to be well-formed base64; a profile with no textures property
/// has no skin.
pub fn skin_from_properties(props: Vec<SkinProperty>) -> (r: Result<
    Option<PlayerSkin>,
    SkinError,
>)
    ensures
        ({
            let i = find_textures(props@);
            match r {
                Ok(None) => i < 0,
                Ok(Some(skin)) => i >= 0 && (props@[i].signature matches Some(sig)
                    && skin.textures@ == props@[i].value@ && skin.signature@ == sig@
                    && base64_decode_of(skin.textures@) is Some && base64_decode_of(
                    skin.signature@,
                ) is Some),
                Err(e) => i >= 0 && ({
                    match props@[i].signature {
                        None => e == SkinError::MissingSignature,
                        Some(sig) => {
                            if base64_decode_of(props@[i].value@) is None {
                                e == SkinError::InvalidTexture
                            } else {
                                e == SkinError::InvalidSignature && base64_decode_of(sig@) is None
                            }
                        },
                    }
                }),
            }
        }),
{
    let ghost ps = props@;
    proof {
        lemma_find_textures(ps);
    }
    let key: String = String::from_str("textures");
    let n = props.len();
    let mut i: usize = 0;
    while i < n
        invariant
            0 <= i <= n,
            n == ps.len(),
            ps == props@,
            key@ == "textures"@,
            forall|j: int| 0 <= j < i ==> !is_textures(#[trigger] ps[j]),
        decreases n - i,
    {
        if props[i].name == key {
            proof {
                assert(is_textures(ps[i as int]));
                assert(find_textures(ps) == i) by {
                    lemma_find_textures(ps);
                    if find_textures(ps) < 0 {
                        assert(!is_textures(ps[i as int]));
                    } else if find_textures(ps) < i {
                        assert(!is_textures(ps[find_textures(ps)]));
                    } else if find_textures(ps) > i {
                        assert(!is_textures(ps[i as int]));
                    }
                }
            }
            let prop = &props[i];
            match &prop.signature {
                None => {
                    return Err(SkinError::MissingSignature);
                },
                Some(sig) => {
                    if base64_check(prop.value.as_str()).is_none() {
                        return Err(SkinError::InvalidTexture);
                    }
                    if base64_check(sig.as_str()).is_none() {
                        return Err(SkinError::InvalidSignature);
                    }
                    let textures = prop.value.clone();
                    let signature = sig.clone();
                    return Ok(Some(PlayerSkin { textures, signature }));
                },
            }
        }
        i = i + 1;
    }
    proof {
        lemma_find_textures(ps);
        if find_textures(ps) >= 0 {
            assert(!is_textures(ps[find_textures(ps)]));
        }
    }
    Ok(None)
}

} // verus!
