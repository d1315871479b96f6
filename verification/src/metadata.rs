use vstd::prelude::*;
use vstd::string::*;
use crate::token_id::{chars_of, decimal, push_decimal};

verus! {

/// The characters of an optional text.
pub open spec fn opt_text(o: Option<String>) -> Option<Seq<char>> {
    match o {
        Some(s) => Some(s@),
        None => None,
    }
}

/// The bytes of an optional byte string.
pub open spec fn opt_bytes(o: Option<Vec<u8>>) -> Option<Seq<u8>> {
    match o {
        Some(b) => Some(b@),
        None => None,
    }
}

/// Copies a byte string.
pub fn copy_bytes(b: &Vec<u8>) -> (r: Vec<u8>)
    ensures
        r@ == b@,
{
    let r = b.clone();
    assert(r@ =~= b@);
    r
}

/// Copies an optional text.
pub fn copy_opt_text(o: &Option<String>) -> (r: Option<String>)
    ensures
        opt_text(r) == opt_text(*o),
{
    match o {
        Some(s) => Some(s.clone()),
        None => None,
    }
}

/// Copies an optional byte string.
pub fn copy_opt_bytes(o: &Option<Vec<u8>>) -> (r: Option<Vec<u8>>)
    ensures
        opt_bytes(r) == opt_bytes(*o),
{
    match o {
        Some(b) => Some(copy_bytes(b)),
        None => None,
    }
}

/// The text of a template in which every placeholder `{}` is replaced by
/// `value`. Placeholders are found from left to right and do not overlap.
pub open spec fn filled(template: Seq<char>, value: Seq<char>) -> Seq<char>
    decreases template.len(),
{
    if template.len() == 0 {
        Seq::empty()
    } else if template.len() >= 2 && template[0] == '{' && template[1] == '}' {
        value + filled(template.skip(2), value)
    } else {
        seq![template[0]] + filled(template.skip(1), value)
    }
}

/// Replaces every placeholder `{}` of `template` by `value`.
pub fn fill_template(template: &str, value: &str) -> (out: String)
    ensures
        out@ == filled(template@, value@),
{
    let chars = chars_of(template);
    let mut out = String::new();
    let mut start: usize = 0;
    let mut i: usize = 0;
    assert(chars@.skip(0) =~= chars@);
    assert(out@ + chars@.subrange(0, 0) + filled(chars@, value@) =~= filled(chars@, value@));
    while i < chars.len()
        invariant
            chars@ == template@,
            start <= i <= chars.len(),
            out@ + chars@.subrange(start as int, i as int) + filled(chars@.skip(i as int), value@)
                == filled(chars@, value@),
        decreases chars.len() - i,
    {
        let ghost rest = chars@.skip(i as int);
        let ghost pending = chars@.subrange(start as int, i as int);
        let ghost before = out@;
        if chars[i] == '{' && i + 1 < chars.len() && chars[i + 1] == '}' {
            assert(rest[0] == '{' && rest[1] == '}');
            assert(rest.skip(2) =~= chars@.skip(i + 2));
            out.append(template.substring_char(start, i));
            out.append(value);
            i += 2;
            start = i;
            assert(out@ + chars@.subrange(start as int, i as int) + filled(
                chars@.skip(i as int),
                value@,
            ) =~= before + pending + (value@ + filled(rest.skip(2), value@))) by {
                assert(chars@.subrange(start as int, i as int) =~= Seq::<char>::empty());
            }
        } else {
            assert(rest[0] == chars@[i as int]);
            assert(rest.len() >= 2 ==> rest[1] == chars@[i + 1]);
            assert(rest.skip(1) =~= chars@.skip(i + 1));
            i += 1;
            assert(chars@.subrange(start as int, i as int) =~= pending + seq![rest[0]]);
            assert(out@ + chars@.subrange(start as int, i as int) + filled(
                chars@.skip(i as int),
                value@,
            ) =~= before + pending + (seq![rest[0]] + filled(rest.skip(1), value@)));
        }
    }
    out.append(template.substring_char(start, i));
    assert(chars@.skip(i as int) =~= Seq::<char>::empty());
    assert(out@ =~= out@ + filled(chars@.skip(i as int), value@));
    out
}

/// What a channel says of its tokens: templates for the title and the
/// description, and links to media and reference material.
pub struct ChannelMetadata {
    pub title_template: String,
    pub description_template: String,
    pub media: String,
    pub animation_url: Option<String>,
    pub reference: String,
    pub reference_hash: Option<Vec<u8>>,
}

/// The values that a `ChannelMetadata` holds.
pub struct ChannelMetadataView {
    pub title_template: Seq<char>,
    pub description_template: Seq<char>,
    pub media: Seq<char>,
    pub animation_url: Option<Seq<char>>,
    pub reference: Seq<char>,
    pub reference_hash: Option<Seq<u8>>,
}

impl View for ChannelMetadata {
    type V = ChannelMetadataView;

    open spec fn view(&self) -> ChannelMetadataView {
        ChannelMetadataView {
            title_template: self.title_template@,
            description_template: self.description_template@,
            media: self.media@,
            animation_url: opt_text(self.animation_url),
            reference: self.reference@,
            reference_hash: opt_bytes(self.reference_hash),
        }
    }
}

/// The display record of one token.
pub struct TokenMetadata {
    pub title: String,
    pub description: String,
    pub media: String,
    pub animation_url: Option<String>,
    pub reference: String,
    pub reference_hash: Option<Vec<u8>>,
}

/// The values that a `TokenMetadata` holds.
pub struct TokenMetadataView {
    pub title: Seq<char>,
    pub description: Seq<char>,
    pub media: Seq<char>,
    pub animation_url: Option<Seq<char>>,
    pub reference: Seq<char>,
    pub reference_hash: Option<Seq<u8>>,
}

impl View for TokenMetadata {
    type V = TokenMetadataView;

    open spec fn view(&self) -> TokenMetadataView {
        TokenMetadataView {
            title: self.title@,
            description: self.description@,
            media: self.media@,
            animation_url: opt_text(self.animation_url),
            reference: self.reference@,
            reference_hash: opt_bytes(self.reference_hash),
        }
    }
}

/// A token identifier together with the token's display record.
pub struct JsonToken {
    pub token_id: String,
    pub metadata: TokenMetadata,
}

/// The values that a `JsonToken` holds.
pub struct JsonTokenView {
    pub token_id: Seq<char>,
    pub metadata: TokenMetadataView,
}

impl View for JsonToken {
    type V = JsonTokenView;

    open spec fn view(&self) -> JsonTokenView {
        JsonTokenView { token_id: self.token_id@, metadata: self.metadata@ }
    }
}

/// What the ledger says of itself as a whole.
pub struct NFTContractMetadata {
    pub spec: String,
    pub name: String,
    pub symbol: String,
    pub icon: Option<String>,
    pub base_uri: Option<String>,
    pub reference: Option<String>,
    pub reference_hash: Option<Vec<u8>>,
}

/// The values that an `NFTContractMetadata` holds.
pub struct NFTContractMetadataView {
    pub spec: Seq<char>,
    pub name: Seq<char>,
    pub symbol: Seq<char>,
    pub icon: Option<Seq<char>>,
    pub base_uri: Option<Seq<char>>,
    pub reference: Option<Seq<char>>,
    pub reference_hash: Option<Seq<u8>>,
}

impl View for NFTContractMetadata {
    type V = NFTContractMetadataView;

    open spec fn view(&self) -> NFTContractMetadataView {
        NFTContractMetadataView {
            spec: self.spec@,
            name: self.name@,
            symbol: self.symbol@,
            icon: opt_text(self.icon),
            base_uri: opt_text(self.base_uri),
            reference: opt_text(self.reference),
            reference_hash: opt_bytes(self.reference_hash),
        }
    }
}

/// The display record of token number `n` of a channel with metadata `m`:
/// the title is the title template with the number filled in, the reference
/// is the channel's reference, a slash and the number, and the other fields
/// are the channel's own.
pub open spec fn token_metadata_of(m: ChannelMetadataView, n: u64) -> TokenMetadataView {
    TokenMetadataView {
        title: filled(m.title_template, decimal(n as nat)),
        description: m.description_template,
        media: m.media,
        animation_url: m.animation_url,
        reference: m.reference + seq!['/'] + decimal(n as nat),
        reference_hash: m.reference_hash,
    }
}

impl ChannelMetadata {
    /// A copy of this metadata.
    pub fn duplicate(&self) -> (r: ChannelMetadata)
        ensures
            r@ == self@,
    {
        ChannelMetadata {
            title_template: self.title_template.clone(),
            description_template: self.description_template.clone(),
            media: self.media.clone(),
            animation_url: copy_opt_text(&self.animation_url),
            reference: self.reference.clone(),
            reference_hash: copy_opt_bytes(&self.reference_hash),
        }
    }

    /// Derives the display record of token number `n`.
    pub fn token_metadata(&self, n: u64) -> (r: TokenMetadata)
        ensures
            r@ == token_metadata_of(self@, n),
    {
        let mut number = String::new();
        push_decimal(&mut number, n);
        assert(number@ =~= decimal(n as nat));
        let title = fill_template(self.title_template.as_str(), number.as_str());
        let mut reference = self.reference.clone();
        proof {
            reveal_strlit("/");
        }
        reference.append("/");
        reference.append(number.as_str());
        assert(reference@ =~= self.reference@ + seq!['/'] + decimal(n as nat));
        TokenMetadata {
            title,
            description: self.description_template.clone(),
            media: self.media.clone(),
            animation_url: copy_opt_text(&self.animation_url),
            reference,
            reference_hash: copy_opt_bytes(&self.reference_hash),
        }
    }
}

impl NFTContractMetadata {
    /// A copy of this metadata.
    pub fn duplicate(&self) -> (r: NFTContractMetadata)
        ensures
            r@ == self@,
    {
        NFTContractMetadata {
            spec: self.spec.clone(),
            name: self.name.clone(),
            symbol: self.symbol.clone(),
            icon: copy_opt_text(&self.icon),
            base_uri: copy_opt_text(&self.base_uri),
            reference: copy_opt_text(&self.reference),
            reference_hash: copy_opt_bytes(&self.reference_hash),
        }
    }
}

} // verus!
