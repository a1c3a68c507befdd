use vstd::prelude::*;

verus! {

/// Why a texture atlas could not be built.
#[derive(Debug, Clone, Copy, PartialEq, Eq, Structural)]
pub enum AtlasError {
    NonUniformDimensions,
    InputEmpty,
}

impl AtlasError {
    pub open spec fn spec_message(self) -> Seq<char> {
        match self {
            AtlasError::NonUniformDimensions => "cannot build atlas texture with non uniform dimensions"@,
            AtlasError::InputEmpty => "input was empty"@,
        }
    }

    /// The message shown for this error.
    pub fn message(&self) -> (m: &'static str)
        ensures
            m@ == self.spec_message(),
    {
        match self {
            AtlasError::NonUniformDimensions => "cannot build atlas texture with non uniform dimensions",
            AtlasError::InputEmpty => "input was empty",
        }
    }
}

/// What the atlas reads of one image: its size and its pixels as RGBA bytes.
pub struct AtlasImage {
    pub dimensions: (u32, u32),
    pub rgba: Vec<u8>,
}

/// An atlas laid out as one column of equally sized images: how many images
/// across and down, the size of the whole texture, and its RGBA bytes.
pub struct AtlasPixels {
    pub width: u32,
    pub height: u32,
    pub size: (u32, u32),
    pub rgba: Vec<u8>,
}

/// Every image has the size of the first.
pub open spec fn uniform_dimensions(images: Seq<AtlasImage>) -> bool {
    forall|i: int| 0 <= i < images.len() ==> #[trigger] images[i].dimensions == images[0].dimensions
}

/// The RGBA bytes of the images, one after the other.
pub open spec fn stacked_rgba(images: Seq<AtlasImage>) -> Seq<u8>
    decreases images.len(),
{
    if images.len() == 0 {
        Seq::empty()
    } else {
        stacked_rgba(images.drop_last()) + images.last().rgba@
    }
}

/// Stacks the images into one column. Fails on an empty input and on
/// images of different sizes.
pub fn build_atlas(textures: Vec<AtlasImage>) -> (r: Result<AtlasPixels, AtlasError>)
    requires
        textures.len() <= u32::MAX,
        textures.len() > 0 && uniform_dimensions(textures@) ==> textures@[0].dimensions.1 * textures.len() <= u32::MAX,
    ensures
        textures.len() == 0 ==> r == Err::<AtlasPixels, AtlasError>(AtlasError::InputEmpty),
        textures.len() > 0 && !uniform_dimensions(textures@) ==> r == Err::<AtlasPixels, AtlasError>(AtlasError::NonUniformDimensions),
        textures.len() > 0 && uniform_dimensions(textures@) ==> (r matches Ok(a) && {
            &&& a.width == 1
            &&& a.height == textures.len()
            &&& a.size == (textures@[0].dimensions.0, (textures@[0].dimensions.1 * textures.len()) as u32)
            &&& a.rgba@ == stacked_rgba(textures@)
        }),
{
    if textures.len() == 0 {
        return Err(AtlasError::InputEmpty);
    }
    let dimensions = textures[0].dimensions;
    let mut i: usize = 0;
    while i < textures.len()
        invariant
            i <= textures@.len(),
            textures@.len() > 0,
            dimensions == textures@[0].dimensions,
            forall|j: int| 0 <= j < i ==> #[trigger] textures@[j].dimensions == dimensions,
        decreases textures@.len() - i,
    {
        if textures[i].dimensions.0 != dimensions.0 || textures[i].dimensions.1 != dimensions.1 {
            return Err(AtlasError::NonUniformDimensions);
        }
        i = i + 1;
    }
    let height = textures.len() as u32;
    let width: u32 = 1;
    let mut rgba: Vec<u8> = Vec::new();
    let mut t: usize = 0;
    while t < textures.len()
        invariant
            t <= textures@.len(),
            rgba@ == stacked_rgba(textures@.subrange(0, t as int)),
        decreases textures@.len() - t,
    {
        let ghost before = rgba@;
        let mut k: usize = 0;
        while k < textures[t].rgba.len()
            invariant
                t < textures@.len(),
                k <= textures@[t as int].rgba@.len(),
                rgba@ == before + textures@[t as int].rgba@.subrange(0, k as int),
            decreases textures@[t as int].rgba@.len() - k,
        {
            rgba.push(textures[t].rgba[k]);
            proof {
                assert(textures@[t as int].rgba@.subrange(0, k + 1)
                    =~= textures@[t as int].rgba@.subrange(0, k as int).push(textures@[t as int].rgba@[k as int]));
            }
            k = k + 1;
        }
        proof {
            assert(textures@[t as int].rgba@.subrange(0, k as int) =~= textures@[t as int].rgba@);
            assert(textures@.subrange(0, t + 1).drop_last() =~= textures@.subrange(0, t as int));
        }
        t = t + 1;
    }
    proof {
        assert(textures@.subrange(0, textures@.len() as int) =~= textures@);
    }
    let size = (dimensions.0, dimensions.1 * height);
    Ok(AtlasPixels { width, height, size, rgba })
}

proof fn lemma_stacked_len(images: Seq<AtlasImage>, per_image: int)
    requires
        forall|i: int| 0 <= i < images.len() ==> #[trigger] images[i].rgba@.len() == per_image,
    ensures
        stacked_rgba(images).len() == images.len() * per_image,
    decreases images.len(),
{
    if images.len() > 0 {
        let rest = images.drop_last();
        assert forall|i: int| 0 <= i < rest.len() implies #[trigger] rest[i].rgba@.len() == per_image by {
            assert(rest[i] == images[i]);
        }
        lemma_stacked_len(rest, per_image);
        assert(images.last().rgba@.len() == per_image);
        assert(rest.len() * per_image + per_image == images.len() * per_image) by (nonlinear_arith)
            requires
                rest.len() + 1 == images.len(),
        ;
    }
}

/// When every image holds four bytes for each of its pixels, so does the
/// atlas: its RGBA bytes fill exactly its `size`.
pub proof fn law_atlas_bytes_fill_its_size(images: Seq<AtlasImage>)
    requires
        images.len() > 0,
        uniform_dimensions(images),
        forall|i: int| 0 <= i < images.len() ==>
            #[trigger] images[i].rgba@.len() == images[i].dimensions.0 * images[i].dimensions.1 * 4,
    ensures
        stacked_rgba(images).len() == images[0].dimensions.0 * (images[0].dimensions.1 * images.len()) * 4,
{
    let (w, h) = images[0].dimensions;
    assert forall|i: int| 0 <= i < images.len() implies #[trigger] images[i].rgba@.len() == w * h * 4 by {
        assert(images[i].dimensions == images[0].dimensions);
    }
    lemma_stacked_len(images, w * h * 4);
    assert(images.len() * (w * h * 4) == w * (h * images.len()) * 4) by (nonlinear_arith);
}

/// How many RGBA bytes the first `n` images hold together.
pub open spec fn rgba_len_before(images: Seq<AtlasImage>, n: int) -> int
    decreases n,
{
    if n <= 0 {
        0
    } else {
        rgba_len_before(images, n - 1) + images[n - 1].rgba@.len()
    }
}

proof fn lemma_len_before_prefix(images: Seq<AtlasImage>, n: int)
    requires
        0 <= n < images.len(),
    ensures
        rgba_len_before(images.drop_last(), n) == rgba_len_before(images, n),
    decreases n,
{
    if n > 0 {
        lemma_len_before_prefix(images, n - 1);
        assert(images.drop_last()[n - 1] == images[n - 1]);
    }
}

/// The atlas bytes are the images' bytes one after the other, unchanged:
/// byte `k` of image `i` stands right after the bytes of the images before
/// it, and nothing else is there.
pub proof fn law_atlas_bytes_unchanged(images: Seq<AtlasImage>, i: int, k: int)
    requires
        0 <= i < images.len(),
        0 <= k < images[i].rgba@.len(),
    ensures
        stacked_rgba(images).len() == rgba_len_before(images, images.len() as int),
        stacked_rgba(images)[rgba_len_before(images, i) + k] == images[i].rgba@[k],
    decreases images.len(),
{
    let rest = images.drop_last();
    let n = images.len() - 1;
    lemma_stacked_total(rest);
    assert(stacked_rgba(images) == stacked_rgba(rest) + images.last().rgba@);
    lemma_len_before_prefix(images, n);
    if i < n {
        assert(rest[i] == images[i]);
        law_atlas_bytes_unchanged(rest, i, k);
        lemma_len_before_prefix(images, i);
        lemma_len_before_grows(rest, i + 1, n);
        assert(rgba_len_before(rest, i + 1) == rgba_len_before(rest, i) + rest[i].rgba@.len());
        lemma_len_before_grows(rest, 0, i);
        let j = rgba_len_before(images, i) + k;
        assert(0 <= j < stacked_rgba(rest).len());
        assert((stacked_rgba(rest) + images.last().rgba@)[j] == stacked_rgba(rest)[j]);
    } else {
        assert(rgba_len_before(images, i) == stacked_rgba(rest).len());
        assert(images.last() == images[i]);
        let a = stacked_rgba(rest);
        assert((a + images[i].rgba@)[a.len() + k] == images[i].rgba@[k]);
    }
}

proof fn lemma_stacked_total(images: Seq<AtlasImage>)
    ensures
        stacked_rgba(images).len() == rgba_len_before(images, images.len() as int),
    decreases images.len(),
{
    if images.len() > 0 {
        lemma_stacked_total(images.drop_last());
        lemma_len_before_prefix(images, images.len() - 1);
    }
}

proof fn lemma_len_before_grows(images: Seq<AtlasImage>, a: int, b: int)
    requires
        0 <= a <= b <= images.len(),
    ensures
        rgba_len_before(images, a) <= rgba_len_before(images, b),
    decreases b - a,
{
    if a < b {
        lemma_len_before_grows(images, a, b - 1);
    }
}

} // verus!
