use vstd::prelude::*;
use crate::image_cache::ImageCache;
use crate::pixel::{same_buffer, PixelBuffer};

verus! {

/// One image file: its path and, once loaded, its decoded thumbnail. Identity
/// is the path; the thumbnail starts absent and is set by one load attempt.
pub struct ImageEntry {
    pub image_path: String,
    pub image: Option<PixelBuffer>,
}

/// Counters describing how the loading pipeline fared. The miss counter
/// counts decode attempts, which makes cache reuse observable from outside.
pub struct CacheStats {
    pub hits: usize,
    pub misses: usize,
    pub disk_load_time_ms: usize,
    pub cache_access_time_ns: usize,
}

impl CacheStats {
    pub open spec fn is_zero(&self) -> bool {
        &&& self.hits == 0
        &&& self.misses == 0
        &&& self.disk_load_time_ms == 0
        &&& self.cache_access_time_ns == 0
    }

    pub fn new() -> (s: Self)
        ensures
            s.is_zero(),
    {
        CacheStats { hits: 0, misses: 0, disk_load_time_ms: 0, cache_access_time_ns: 0 }
    }
}

/// One more recorded event: counters advance by one and stop at the machine
/// limit instead of wrapping.
pub open spec fn counted_up(n: usize) -> int {
    if n < usize::MAX {
        n + 1
    } else {
        n as int
    }
}

/// Reset the pipeline counters to zero.
pub fn clear_cache(stats: &mut CacheStats)
    ensures
        final(stats).is_zero(),
{
    stats.hits = 0;
    stats.misses = 0;
    stats.disk_load_time_ms = 0;
    stats.cache_access_time_ns = 0;
}

/// Why one image failed to load; such failures are absorbed per image and
/// never abort a batch.
#[derive(Debug)]
pub enum ImageLoadError {
    /// The file could not be read from disk.
    Unreadable,
    /// The bytes did not decode as a supported image.
    Decode,
    /// The decoded dimensions leave no room for the aspect-fit arithmetic.
    Oversize,
}

/// What hook-free decoding yields for given bytes: the decoded image's
/// dimensions when the bytes decode as a built-in format, nothing when they
/// do not. With the decoder chosen by the static magic-byte table alone,
/// decoding is a pure function of the bytes, so the name is well defined.
pub uninterp spec fn decoded_dims_of(bytes: Seq<u8>) -> Option<(u32, u32)>;

/// Dimensions of the thumbnail the decode-resize-convert chain produces for
/// given bytes and resize bounds; the chain is pure, so this is a function of
/// its arguments. Meaningful when the bytes decode.
pub uninterp spec fn thumb_dims_of(bytes: Seq<u8>, rw: u32, rh: u32) -> (u32, u32);

/// Relies on `image::guess_format`, which consults only the built-in
/// magic-byte table, and `image::load_from_memory_with_format`, which takes
/// the built-in decoder for that format — neither consults the
/// process-global format or decoder hooks — so the outcome, named
/// `decoded_dims_of`, depends on the bytes alone;
/// `GenericImageView::dimensions` reads the size out of the result.
#[verifier::external_body]
fn decode_dims(bytes: &[u8]) -> (r: Option<(u32, u32)>)
    ensures
        r is Some <==> decoded_dims_of(bytes@) is Some,
        (r matches Some(d) ==> decoded_dims_of(bytes@) == Some(d)),
{
    let format = image::guess_format(bytes).ok()?;
    let img = image::load_from_memory_with_format(bytes, format).ok()?;
    Some(image::GenericImageView::dimensions(&img))
}

/// Relies on the same hook-free decode, then `image::DynamicImage::resize`
/// with the smoothing triangle filter, and `to_rgba8` with `dimensions` and
/// `into_raw` to hand the thumbnail out as plain values. Every step is pure,
/// so the outcome is a function of the bytes and the bounds alone: it exists
/// exactly when the bytes decode, its dimensions are named `thumb_dims_of`,
/// and every `ImageBuffer` holds at least `width * height * 4` samples. One
/// fused body carries the chain because the intermediate image value is
/// opaque to the verifier.
#[verifier::external_body]
fn decode_resize_rgba8(bytes: &[u8], rw: u32, rh: u32) -> (r: Option<(Vec<u8>, u32, u32)>)
    ensures
        r is Some <==> decoded_dims_of(bytes@) is Some,
        (r matches Some(t) ==> (t.1, t.2) == thumb_dims_of(bytes@, rw, rh)),
        (r matches Some(t) ==> t.0@.len() >= 4 * (t.1 as int) * (t.2 as int)),
{
    let format = image::guess_format(bytes).ok()?;
    let img = image::load_from_memory_with_format(bytes, format).ok()?;
    let rgba = img.resize(rw, rh, image::imageops::FilterType::Triangle).to_rgba8();
    let (w, h) = rgba.dimensions();
    Some((rgba.into_raw(), w, h))
}

/// The aspect-fit arithmetic of `spec_calculate_size` stays within `u32`: the
/// product of the shorter decoded axis and the box fits the machine word.
pub open spec fn fit_arithmetic_ok(width: u32, height: u32, to: u32) -> bool {
    if width > height {
        height * to <= u32::MAX
    } else {
        width * to <= u32::MAX
    }
}

/// The bytes decode to an image the pipeline can thumbnail: the decode
/// succeeds, both dimensions are nonzero, and the aspect-fit arithmetic fits.
pub open spec fn thumbnailable(bytes: Seq<u8>, to: u32) -> bool {
    match decoded_dims_of(bytes) {
        Some(d) => d.0 >= 1 && d.1 >= 1 && fit_arithmetic_ok(d.0, d.1, to),
        None => false,
    }
}

/// The aspect-ratio fit of `width x height` into a `to x to` box: the longer
/// axis becomes `to`, the shorter one scales by the same factor, rounded
/// down. A square image takes the second branch, so its height is the axis
/// pinned to `to`; callers relying on bit-for-bit output depend on that tie
/// direction.
pub open spec fn spec_calculate_size(width: u32, height: u32, to: u32) -> (u32, u32) {
    if width > height {
        (to, ((height * to) / (width as int)) as u32)
    } else {
        (((width * to) / (height as int)) as u32, to)
    }
}

/// Compute the thumbnail dimensions that fit `width x height` within a
/// `to x to` box, preserving aspect ratio with floor rounding.
pub fn calculate_size(width: u32, height: u32, to: u32) -> (r: (u32, u32))
    requires
        width > height ==> height * to <= u32::MAX,
        width <= height ==> height > 0 && width * to <= u32::MAX,
    ensures
        r == spec_calculate_size(width, height, to),
{
    if width > height {
        (to, (height * to) / width)
    } else {
        ((width * to) / height, to)
    }
}

/// Decode image bytes and scale the result to fit within the square
/// `thumbnail_size` box. Succeeds exactly when the bytes decode to an image
/// with nonzero dimensions whose aspect-fit arithmetic fits `u32`; the buffer
/// handed back is then well-formed and carries the dimensions the resize
/// yields for the target box that `spec_calculate_size` fixes.
pub fn load_and_resize_image(bytes: &Vec<u8>, thumbnail_size: u32) -> (r: Result<
    PixelBuffer,
    ImageLoadError,
>)
    ensures
        r is Ok <==> thumbnailable(bytes@, thumbnail_size),
        (r matches Ok(buf) ==> buf.wf()),
        (r matches Ok(buf) ==> (decoded_dims_of(bytes@) matches Some(d) && (buf.width, buf.height)
            == thumb_dims_of(
            bytes@,
            spec_calculate_size(d.0, d.1, thumbnail_size).0,
            spec_calculate_size(d.0, d.1, thumbnail_size).1,
        ))),
        decoded_dims_of(bytes@) is None ==> r == Err::<PixelBuffer, ImageLoadError>(
            ImageLoadError::Decode,
        ),
        (decoded_dims_of(bytes@) matches Some(d) && (d.0 == 0 || d.1 == 0) ==> r == Err::<
            PixelBuffer,
            ImageLoadError,
        >(ImageLoadError::Decode)),
        (decoded_dims_of(bytes@) matches Some(d) && d.0 >= 1 && d.1 >= 1 && !fit_arithmetic_ok(
            d.0,
            d.1,
            thumbnail_size,
        ) ==> r == Err::<PixelBuffer, ImageLoadError>(ImageLoadError::Oversize)),
{
    let (width, height) = match decode_dims(bytes.as_slice()) {
        Some(d) => d,
        None => {
            return Err(ImageLoadError::Decode);
        },
    };
    if width == 0 || height == 0 {
        return Err(ImageLoadError::Decode);
    }
    let short_axis: u32 = if width > height {
        height
    } else {
        width
    };
    proof {
        assert((short_axis as int) * (thumbnail_size as int) <= 0xffff_ffff * 0xffff_ffff)
            by (nonlinear_arith)
            requires
                0 <= short_axis as int <= 0xffff_ffff,
                0 <= thumbnail_size as int <= 0xffff_ffff,
        ;
    }
    let fits: bool = (short_axis as u64) * (thumbnail_size as u64) <= (u32::MAX as u64);
    if !fits {
        return Err(ImageLoadError::Oversize);
    }
    let (rw, rh) = calculate_size(width, height, thumbnail_size);
    let (pixels, w2, h2) = match decode_resize_rgba8(bytes.as_slice(), rw, rh) {
        Some(t) => t,
        None => {
            // the bytes decoded a moment ago, and decoding is a function of
            // the bytes alone
            proof {
                assert(false);
            }
            return Err(ImageLoadError::Decode);
        },
    };
    let stride: u64 = 4 * (w2 as u64);
    Ok(PixelBuffer { width: w2, height: h2, stride, pixels })
}

impl ImageEntry {
    /// Load this entry's thumbnail: keep it if already present, else take the
    /// cache's copy, else decode `source` and publish the result to the cache
    /// under this entry's path. A miss is counted exactly when a decode is
    /// attempted, which makes cache reuse observable; a hit leaves the cache
    /// untouched. Per-image failures are handed back for logging and leave
    /// the thumbnail absent; they never abort a batch.
    pub fn load_image(
        &mut self,
        cache: &mut ImageCache,
        stats: &mut CacheStats,
        thumbnail_size: u32,
        source: Option<&Vec<u8>>,
    ) -> (r: Result<(), ImageLoadError>)
        requires
            old(cache).wf(),
        ensures
            final(cache).wf(),
            final(cache).capacity() == old(cache).capacity(),
            final(self).image_path == old(self).image_path,
            final(stats).disk_load_time_ms == old(stats).disk_load_time_ms,
            final(stats).cache_access_time_ns == old(stats).cache_access_time_ns,
            old(self).image is Some ==> *final(self) == *old(self) && *final(cache) == *old(cache)
                && *final(stats) == *old(stats) && r is Ok,
            old(self).image is None && old(cache).contains_key(old(self).image_path@) ==> {
                &&& (final(self).image matches Some(b) && same_buffer(
                    b,
                    old(cache).value_at(old(self).image_path@),
                ))
                &&& *final(cache) == *old(cache)
                &&& final(stats).hits == counted_up(old(stats).hits)
                &&& final(stats).misses == old(stats).misses
                &&& r is Ok
            },
            old(self).image is None && !old(cache).contains_key(old(self).image_path@) ==> {
                &&& final(stats).misses == counted_up(old(stats).misses)
                &&& final(stats).hits == old(stats).hits
                &&& (source is None ==> r == Err::<(), ImageLoadError>(ImageLoadError::Unreadable))
                &&& (source matches Some(b) ==> (r is Ok <==> thumbnailable(
                    b@,
                    thumbnail_size,
                )))
                &&& (r is Err ==> final(self).image is None && *final(cache) == *old(cache))
                &&& (r is Ok ==> {
                    &&& (final(self).image matches Some(b) && b.wf() && (old(cache).capacity() > 0
                        ==> final(cache).contains_key(old(self).image_path@) && same_buffer(
                        b,
                        final(cache).value_at(old(self).image_path@),
                    )))
                    &&& (final(self).image matches Some(b) && source matches Some(src) ==> (
                    decoded_dims_of(src@) matches Some(d) && (b.width, b.height) == thumb_dims_of(
                        src@,
                        spec_calculate_size(d.0, d.1, thumbnail_size).0,
                        spec_calculate_size(d.0, d.1, thumbnail_size).1,
                    )))
                    &&& forall|k: Seq<char>|
                        final(cache).contains_key(k) ==> k == old(self).image_path@ || old(
                            cache,
                        ).contains_key(k)
                })
            },
    {
        if self.image.is_some() {
            return Ok(());
        }
        let hit = match cache.get(self.image_path.as_str()) {
            Some(buf) => Some(buf.clone()),
            None => None,
        };
        match hit {
            Some(b) => {
                self.image = Some(b);
                stats.hits = if stats.hits < usize::MAX {
                    stats.hits + 1
                } else {
                    stats.hits
                };
                Ok(())
            },
            None => {
                stats.misses = if stats.misses < usize::MAX {
                    stats.misses + 1
                } else {
                    stats.misses
                };
                let bytes = match source {
                    Some(b) => b,
                    None => {
                        return Err(ImageLoadError::Unreadable);
                    },
                };
                match load_and_resize_image(bytes, thumbnail_size) {
                    Ok(buf) => {
                        let copy = buf.clone();
                        self.image = Some(copy);
                        cache.insert(self.image_path.as_str(), buf);
                        Ok(())
                    },
                    Err(e) => Err(e),
                }
            },
        }
    }
}

} // verus!
