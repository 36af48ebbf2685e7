//! The images of a scene: where their bytes are, and one texture for each.
use vstd::prelude::*;
use vstd::string::*;

use crate::text;
use crate::texture::TextureData;

verus! {

/// What `base64::decode` gives of a text with the standard alphabet.
pub uninterp spec fn base64_bytes(t: Seq<char>) -> Option<Seq<u8>>;

/// What `urlencoding::decode` gives of a text: its percent-encoded bytes
/// decoded, if the result is a text again.
pub uninterp spec fn percent_decoded(t: Seq<char>) -> Option<Seq<char>>;

/// `base64::decode`. Its result depends on the text alone.
#[verifier::external_body]
fn decode_base64(t: &str) -> (r: Option<Vec<u8>>)
    ensures
        match r {
            Some(b) => base64_bytes(t@) == Some(b@),
            None => base64_bytes(t@) is None,
        },
{
    base64::decode(t).ok()
}

/// `urlencoding::decode`. Its result depends on the text alone.
#[verifier::external_body]
fn decode_percent(t: &str) -> (r: Option<String>)
    ensures
        match r {
            Some(s) => percent_decoded(t@) == Some(s@),
            None => percent_decoded(t@) is None,
        },
{
    urlencoding::decode(t).ok().map(|s| s.into_owned())
}

/// Where a scene file keeps an image.
pub enum ImageSource {
    /// Part of one of its buffers.
    View { buffer: usize, offset: usize, length: usize },
    /// At an address: in the address itself or in another file.
    Uri(String),
}

/// Where the bytes of an image are.
pub enum Encoded {
    Bytes(Vec<u8>),
    /// In the file with this name, relative to the scene file.
    File(String),
    /// Nowhere that is known.
    Missing,
}

#[verifier::ext_equal]
pub enum EncodedModel {
    Bytes(Seq<u8>),
    File(Seq<char>),
    Missing,
}

impl View for Encoded {
    type V = EncodedModel;

    open spec fn view(&self) -> EncodedModel {
        match self {
            Encoded::Bytes(b) => EncodedModel::Bytes(b@),
            Encoded::File(s) => EncodedModel::File(s@),
            Encoded::Missing => EncodedModel::Missing,
        }
    }
}

pub open spec fn starts_with(s: Seq<char>, p: Seq<char>) -> bool {
    p.len() <= s.len() && s.take(p.len() as int) == p
}

/// Where `p` first occurs in `s`; beyond its end when it does not.
pub open spec fn first_text(s: Seq<char>, p: Seq<char>) -> nat
    decreases s.len(),
{
    if s.len() == 0 || starts_with(s, p) {
        0
    } else {
        1 + first_text(s.skip(1), p)
    }
}

/// What stands behind the first occurrence of `p`.
pub open spec fn after_text(s: Seq<char>, p: Seq<char>) -> Option<Seq<char>> {
    let i = first_text(s, p) as int;
    if starts_with(s.skip(i), p) {
        Some(s.skip(i + p.len()))
    } else {
        None
    }
}

/// The file that an address names, before percent-decoding.
pub open spec fn file_of_uri(uri: Seq<char>) -> Seq<char> {
    if starts_with(uri, "file://"@) {
        uri.skip("file://"@.len() as int)
    } else if starts_with(uri, "file:"@) {
        uri.skip("file:"@.len() as int)
    } else {
        uri
    }
}

/// Where the bytes of an image with an address are.
pub open spec fn uri_image(uri: Seq<char>) -> EncodedModel {
    if starts_with(uri, "data:"@) {
        match after_text(uri.skip("data:"@.len() as int), ";base64,"@) {
            None => EncodedModel::Missing,
            Some(b64) => match base64_bytes(b64) {
                Some(b) => EncodedModel::Bytes(b),
                None => EncodedModel::Missing,
            },
        }
    } else {
        match percent_decoded(file_of_uri(uri)) {
            Some(name) => EncodedModel::File(name),
            None => EncodedModel::Missing,
        }
    }
}

/// The bytes of an image that is part of a buffer.
pub open spec fn view_image(
    buffers: Seq<Vec<u8>>,
    buffer: int,
    offset: int,
    length: int,
) -> EncodedModel {
    if buffer < buffers.len() && offset + length <= buffers[buffer]@.len() {
        EncodedModel::Bytes(buffers[buffer]@.subrange(offset, offset + length))
    } else {
        EncodedModel::Missing
    }
}

fn begins(s: &str, p: &str) -> (r: bool)
    ensures
        r == starts_with(s@, p@),
{
    let n: usize = text::chars_of(p).len();
    if n > text::chars_of(s).len() {
        return false;
    }
    let start: &str = s.substring_char(0, n);
    assert(start@ =~= s@.take(n as int));
    text::same(start, p)
}

/// A text without so many characters at its start.
fn behind(s: &str, n: usize) -> (r: &str)
    requires
        n <= s@.len(),
    ensures
        r@ == s@.skip(n as int),
{
    let len: usize = text::chars_of(s).len();
    let r: &str = s.substring_char(n, len);
    assert(r@ =~= s@.skip(n as int));
    r
}

proof fn lemma_first_text(s: Seq<char>, p: Seq<char>, n: nat)
    requires
        n <= s.len(),
        forall|i: int| 0 <= i < n ==> !starts_with(#[trigger] s.skip(i), p),
        n < s.len() ==> starts_with(s.skip(n as int), p),
    ensures
        first_text(s, p) == n,
    decreases n,
{
    assert(s.skip(0) =~= s);
    if n > 0 {
        let r = s.skip(1);
        assert(!starts_with(s.skip(0), p));
        assert forall|i: int| 0 <= i < n - 1 implies !starts_with(#[trigger] r.skip(i), p) by {
            assert(r.skip(i) =~= s.skip(i + 1));
        }
        assert(r.skip(n - 1) =~= s.skip(n as int));
        lemma_first_text(r, p, (n - 1) as nat);
    }
}

fn starts_at(cs: &Vec<char>, i: usize, ps: &Vec<char>) -> (r: bool)
    requires
        i <= cs.len(),
    ensures
        r == starts_with(cs@.skip(i as int), ps@),
{
    if ps.len() > cs.len() - i {
        return false;
    }
    let mut k: usize = 0;
    while k < ps.len()
        invariant
            k <= ps.len() <= cs.len() - i,
            i <= cs.len(),
            forall|j: int| 0 <= j < k ==> cs@[i + j] == #[trigger] ps@[j],
        decreases ps.len() - k,
    {
        if cs[i + k] != ps[k] {
            assert(cs@.skip(i as int).take(ps@.len() as int)[k as int] != ps@[k as int]);
            return false;
        }
        k += 1;
    }
    assert(cs@.skip(i as int).take(ps@.len() as int) =~= ps@);
    true
}

fn find_after<'a>(s: &'a str, p: &str) -> (r: Option<&'a str>)
    ensures
        match r {
            Some(t) => after_text(s@, p@) == Some(t@),
            None => after_text(s@, p@) is None,
        },
{
    let cs: Vec<char> = text::chars_of(s);
    let ps: Vec<char> = text::chars_of(p);
    let mut i: usize = 0;
    while i < cs.len()
        invariant
            i <= cs.len(),
            cs@ == s@,
            ps@ == p@,
            forall|j: int| 0 <= j < i ==> !starts_with(#[trigger] s@.skip(j), p@),
        decreases cs.len() - i,
    {
        if starts_at(&cs, i, &ps) {
            proof {
                lemma_first_text(s@, p@, i as nat);
            }
            return Some(behind(s, i + ps.len()));
        }
        i += 1;
    }
    proof {
        lemma_first_text(s@, p@, i as nat);
        assert(s@.skip(i as int) =~= Seq::empty());
    }
    if ps.len() == 0 {
        assert(s@.skip(i as int).take(0) =~= p@);
        Some(behind(s, cs.len()))
    } else {
        None
    }
}

/// Where the bytes of an image are: in a buffer, in a `data:` address or in a
/// file.
pub fn encoded_image(source: &ImageSource, buffers: &Vec<Vec<u8>>) -> (r: Encoded)
    ensures
        r@ == match *source {
            ImageSource::View { buffer, offset, length } => view_image(
                buffers@,
                buffer as int,
                offset as int,
                length as int,
            ),
            ImageSource::Uri(uri) => uri_image(uri@),
        },
{
    match source {
        ImageSource::View { buffer, offset, length } => {
            if *buffer >= buffers.len() {
                return Encoded::Missing;
            }
            let data: &Vec<u8> = &buffers[*buffer];
            if *offset > data.len() || *length > data.len() - *offset {
                return Encoded::Missing;
            }
            let part: &[u8] = vstd::slice::slice_subrange(
                data.as_slice(),
                *offset,
                *offset + *length,
            );
            Encoded::Bytes(vstd::slice::slice_to_vec(part))
        },
        ImageSource::Uri(uri) => uri_source(uri.as_str()),
    }
}

fn uri_source(uri: &str) -> (r: Encoded)
    ensures
        r@ == uri_image(uri@),
{
    proof {
        reveal_strlit("data:");
        reveal_strlit("file://");
        reveal_strlit("file:");
    }
    if begins(uri, "data:") {
        return match find_after(behind(uri, 5), ";base64,") {
            None => Encoded::Missing,
            Some(b64) => match decode_base64(b64) {
                Some(b) => Encoded::Bytes(b),
                None => Encoded::Missing,
            },
        };
    }
    let file: &str = if begins(uri, "file://") {
        behind(uri, 7)
    } else if begins(uri, "file:") {
        behind(uri, 5)
    } else {
        uri
    };
    match decode_percent(file) {
        Some(name) => Encoded::File(name),
        None => Encoded::Missing,
    }
}

/// The images of a scene, each read at most once and shared by every material
/// that uses it.
pub struct ImageCache {
    /// What is known of images: the place of their texture, or that they have
    /// none.
    pub by_index: Vec<(usize, Option<usize>)>,
    pub textures: Vec<TextureData>,
}

/// The place of an image among those that are known; their number when it is
/// not.
pub open spec fn image_place(known: Seq<(usize, Option<usize>)>, index: usize) -> nat
    decreases known.len(),
{
    if known.len() == 0 || known[0].0 == index {
        0
    } else {
        1 + image_place(known.skip(1), index)
    }
}

proof fn lemma_image_place(known: Seq<(usize, Option<usize>)>, index: usize, n: nat)
    requires
        n <= known.len(),
        forall|i: int| 0 <= i < n ==> (#[trigger] known[i]).0 != index,
        n < known.len() ==> known[n as int].0 == index,
    ensures
        image_place(known, index) == n,
    decreases n,
{
    if n > 0 {
        let r = known.skip(1);
        assert(known[0].0 != index);
        assert forall|i: int| 0 <= i < n - 1 implies (#[trigger] r[i]).0 != index by {
            assert(r[i] == known[i + 1]);
        }
        lemma_image_place(r, index, (n - 1) as nat);
    }
}

proof fn lemma_image_place_bound(known: Seq<(usize, Option<usize>)>, index: usize)
    ensures
        image_place(known, index) <= known.len(),
        forall|i: int| 0 <= i < image_place(known, index) ==> (#[trigger] known[i]).0 != index,
        image_place(known, index) < known.len() ==> known[image_place(known, index) as int].0
            == index,
    decreases known.len(),
{
    if known.len() > 0 && known[0].0 != index {
        let r = known.skip(1);
        lemma_image_place_bound(r, index);
        assert forall|i: int| 0 <= i < image_place(known, index) implies (#[trigger] known[i]).0
            != index by {
            if i > 0 {
                assert(r[i - 1] == known[i]);
            }
        }
        if image_place(known, index) < known.len() {
            assert(r[image_place(r, index) as int] == known[image_place(known, index) as int]);
        }
    }
}

impl ImageCache {
    /// What is known of an image: nothing, that it has no texture, or the place
    /// of its texture.
    pub open spec fn known(&self, index: usize) -> Option<Option<usize>> {
        let i = image_place(self.by_index@, index) as int;
        if i < self.by_index@.len() {
            Some(self.by_index@[i].1)
        } else {
            None
        }
    }

    /// Every texture stands there once, and images name textures that are
    /// there.
    pub open spec fn consistent(&self) -> bool {
        &&& forall|i: int, j: int|
            0 <= i < j < self.textures@.len() ==> (#[trigger] self.textures@[i]).source_key != (
            #[trigger] self.textures@[j]).source_key
        &&& forall|i: int|
            0 <= i < self.by_index@.len() ==> match (#[trigger] self.by_index@[i]).1 {
                Some(t) => t < self.textures@.len(),
                None => true,
            }
    }

    /// No image has been read.
    pub fn new() -> (r: ImageCache)
        ensures
            r.consistent(),
            r.textures@.len() == 0,
            forall|i: usize| #[trigger] r.known(i) is None,
    {
        ImageCache { by_index: Vec::new(), textures: Vec::new() }
    }

    /// What is known of an image.
    pub fn get(&self, index: usize) -> (r: Option<Option<usize>>)
        ensures
            r == self.known(index),
    {
        let mut i: usize = 0;
        while i < self.by_index.len()
            invariant
                i <= self.by_index.len(),
                forall|j: int| 0 <= j < i ==> (#[trigger] self.by_index@[j]).0 != index,
            decreases self.by_index.len() - i,
        {
            if self.by_index[i].0 == index {
                proof {
                    lemma_image_place(self.by_index@, index, i as nat);
                }
                return Some(self.by_index[i].1);
            }
            i += 1;
        }
        proof {
            lemma_image_place(self.by_index@, index, i as nat);
        }
        None
    }

    /// The place of a texture made from the same bytes.
    fn same_source(&self, key: u64) -> (r: Option<usize>)
        ensures
            match r {
                Some(i) => i < self.textures@.len() && self.textures@[i as int].source_key == key,
                None => forall|i: int|
                    0 <= i < self.textures@.len() ==> (#[trigger] self.textures@[i]).source_key
                        != key,
            },
    {
        let mut i: usize = 0;
        while i < self.textures.len()
            invariant
                i <= self.textures.len(),
                forall|j: int| 0 <= j < i ==> (#[trigger] self.textures@[j]).source_key != key,
            decreases self.textures.len() - i,
        {
            if self.textures[i].source_key == key {
                return Some(i);
            }
            i += 1;
        }
        None
    }

    /// Records what reading an image gave. An image whose source is there
    /// already shares its texture; one that could not be read has none.
    pub fn insert(&mut self, index: usize, tex: Option<TextureData>) -> (r: Option<usize>)
        requires
            old(self).consistent(),
            old(self).known(index) is None,
        ensures
            final(self).consistent(),
            final(self).known(index) == Some(r),
            forall|i: usize|
                i != index ==> #[trigger] final(self).known(i) == old(self).known(i),
            r is None <==> tex is None,
            tex is None ==> final(self).textures@ == old(self).textures@,
            tex matches Some(t) ==> {
                let at = r->0 as int;
                &&& at < final(self).textures@.len()
                &&& final(self).textures@[at].source_key == t.source_key
                &&& if exists|i: int|
                    0 <= i < old(self).textures@.len() && (
                    #[trigger] old(self).textures@[i]).source_key == t.source_key {
                    final(self).textures@ == old(self).textures@
                } else {
                    final(self).textures@ == old(self).textures@.push(t)
                }
            },
    {
        let ghost known0 = self.by_index@;
        let place: Option<usize> = match tex {
            None => None,
            Some(t) => match self.same_source(t.source_key) {
                Some(i) => Some(i),
                None => {
                    let i: usize = self.textures.len();
                    self.textures.push(t);
                    Some(i)
                },
            },
        };
        self.by_index.push((index, place));
        proof {
            lemma_image_place_bound(known0, index);
            lemma_image_place(self.by_index@, index, known0.len());
            assert forall|i: usize| i != index implies #[trigger] self.known(i) == old(self).known(
                i,
            ) by {
                lemma_image_place_bound(known0, i);
                let p = image_place(known0, i);
                if p < known0.len() {
                    assert forall|j: int| 0 <= j < p implies (#[trigger] self.by_index@[j]).0
                        != i by {
                        assert(known0[j].0 != i);
                    }
                    lemma_image_place(self.by_index@, i, p);
                } else {
                    assert forall|j: int| 0 <= j < p + 1 implies (#[trigger] self.by_index@[j]).0
                        != i by {
                        if j < p {
                            assert(known0[j].0 != i);
                        }
                    }
                    lemma_image_place(self.by_index@, i, p + 1);
                }
            }
        }
        place
    }
}

/// An image that is part of a buffer has exactly the bytes from its offset on,
/// as many as its length says, and is missing where the buffer is too short.
pub proof fn law_views_are_parts_of_their_buffer(
    buffers: Seq<Vec<u8>>,
    buffer: int,
    offset: int,
    length: int,
)
    requires
        0 <= buffer,
        0 <= offset,
        0 <= length,
    ensures
        match view_image(buffers, buffer, offset, length) {
            EncodedModel::Bytes(b) => {
                &&& buffer < buffers.len()
                &&& offset + length <= buffers[buffer]@.len()
                &&& b.len() == length
                &&& forall|k: int|
                    0 <= k < length ==> #[trigger] b[k] == buffers[buffer]@[offset + k]
            },
            EncodedModel::File(_) => false,
            EncodedModel::Missing => buffer >= buffers.len() || offset + length
                > buffers[buffer]@.len(),
        },
{
}

/// Whether `;base64,` stands at place `i`.
pub open spec fn marked(s: Seq<char>, i: int) -> bool {
    s.subrange(i, i + 8) == ";base64,"@
}

/// An address that starts with `data:` holds the bytes of what stands behind the
/// first `;base64,`, whatever stands between.
pub proof fn law_data_addresses_hold_their_bytes(between: Seq<char>, encoded: Seq<char>)
    requires
        forall|i: int|
            0 <= i < between.len() ==> !#[trigger] marked(between + ";base64,"@ + encoded, i),
    ensures
        uri_image("data:"@ + between + ";base64,"@ + encoded) == (match base64_bytes(encoded) {
            Some(b) => EncodedModel::Bytes(b),
            None => EncodedModel::Missing,
        }),
{
    reveal_strlit("data:");
    reveal_strlit(";base64,");
    let uri = "data:"@ + between + ";base64,"@ + encoded;
    let rest = between + ";base64,"@ + encoded;
    let n = between.len();
    assert(uri.take(5) =~= "data:"@);
    assert(uri.skip(5) =~= rest);
    assert forall|i: int| 0 <= i < n implies !starts_with(#[trigger] rest.skip(i), ";base64,"@) by {
        assert(!marked(rest, i));
        assert(rest.skip(i).take(8) =~= rest.subrange(i, i + 8));
    }
    assert(rest.skip(n as int).take(8) =~= ";base64,"@);
    lemma_first_text(rest, ";base64,"@, n);
    assert(rest.skip(n as int + 8) =~= encoded);
}

/// Any other address names a file: what stands behind `file://` or `file:`, or
/// the whole address where it has neither, with its percent signs decoded.
pub proof fn law_other_addresses_name_files(name: Seq<char>)
    ensures
        uri_image("file://"@ + name) == (match percent_decoded(name) {
            Some(f) => EncodedModel::File(f),
            None => EncodedModel::Missing,
        }),
        !(name.len() >= 2 && name[0] == '/' && name[1] == '/') ==> uri_image("file:"@ + name)
            == (match percent_decoded(name) {
            Some(f) => EncodedModel::File(f),
            None => EncodedModel::Missing,
        }),
        !(name.len() >= 5 && (name.take(5) == "data:"@ || name.take(5) == "file:"@)) ==> uri_image(
            name,
        ) == (match percent_decoded(name) {
            Some(f) => EncodedModel::File(f),
            None => EncodedModel::Missing,
        }),
{
    reveal_strlit("data:");
    reveal_strlit("file://");
    reveal_strlit("file:");
    let long = "file://"@ + name;
    let short = "file:"@ + name;
    assert(long.take(7) =~= "file://"@);
    assert(long.skip(7) =~= name);
    assert(long.take(5)[0] != "data:"@[0]);
    assert(short.take(5) =~= "file:"@);
    assert(short.skip(5) =~= name);
    assert(short.take(5)[0] != "data:"@[0]);
    if short.len() >= 7 {
        assert(short.take(7)[5] == name[0]);
        assert(short.take(7)[6] == name[1]);
        assert("file://"@[5] == '/' && "file://"@[6] == '/');
    }
    if starts_with(name, "file://"@) {
        assert(name.take(5) =~= name.take(7).take(5));
        assert("file://"@.take(5) =~= "file:"@);
    }
}

/// What is known of an image is what was recorded under its number.
pub proof fn law_images_are_known_by_number(images: ImageCache, i: int, index: usize)
    ensures
        0 <= i < images.by_index@.len() && images.by_index@[i].0 == index && (forall|j: int|
            0 <= j < i ==> (#[trigger] images.by_index@[j]).0 != index) ==> images.known(index)
            == Some(images.by_index@[i].1),
        (forall|j: int|
            0 <= j < images.by_index@.len() ==> (#[trigger] images.by_index@[j]).0 != index)
            ==> images.known(index) is None,
{
    let known = images.by_index@;
    if 0 <= i < known.len() && known[i].0 == index && (forall|j: int|
        0 <= j < i ==> (#[trigger] known[j]).0 != index) {
        lemma_image_place(known, index, i as nat);
    }
    if forall|j: int| 0 <= j < known.len() ==> (#[trigger] known[j]).0 != index {
        lemma_image_place(known, index, known.len());
    }
}

/// What is said of an image's bytes is said of where they are.
pub proof fn law_images_are_seen_whole(e: Encoded)
    ensures
        e matches Encoded::Bytes(b) ==> e@ == EncodedModel::Bytes(b@),
        e matches Encoded::File(s) ==> e@ == EncodedModel::File(s@),
        e is Missing ==> e@ is Missing,
{
}

} // verus!
