//! Compressing a single image file to a JPEG.

use vstd::prelude::*;
use vstd::string::StringExecFns;
use crate::fs::Fs;
use crate::path::{jpg_name, jpg_target_name, file_name, join_one, path_eq};

verus! {

/// Quality and resize ratio for the new image.  Quality is counted in
/// hundredths of a point over (0, 100]; the size ratio in thousandths
/// over (0, 1].
#[derive(Debug, Clone, Copy, PartialEq, Eq, Structural)]
pub struct Factor {
    /// Quality of the new compressed image, in hundredths of a point:
    /// valid values lie in 1..=10000.
    pub quality: u16,
    /// Ratio by which width and height are scaled, in thousandths:
    /// valid values lie in 1..=1000.
    pub size_ratio: u16,
}

impl Factor {
    /// The bounds every constructed factor satisfies.
    pub open spec fn valid(self) -> bool {
        0 < self.quality <= 10000 && 0 < self.size_ratio <= 1000
    }

    /// The whole-point quality handed to the encoder.
    pub open spec fn spec_quality_points(self) -> nat {
        (self.quality / 100) as nat
    }

    /// A new factor: `quality` in hundredths of a point over (0, 10000],
    /// `size_ratio` in thousandths over (0, 1000].  Anything outside
    /// those bounds is rejected.
    pub fn new(quality: u16, size_ratio: u16) -> (r: Option<Factor>)
        ensures
            r is Some <==> (0 < quality <= 10000 && 0 < size_ratio <= 1000),
            r matches Some(f) ==> f == (Factor { quality, size_ratio }) && f.valid(),
    {
        if 0 < quality && quality <= 10000 && 0 < size_ratio && size_ratio <= 1000 {
            Some(Factor { quality, size_ratio })
        } else {
            None
        }
    }

    /// Getter for the quality, in hundredths of a point.
    pub fn quality(&self) -> (r: u16)
        ensures
            r == self.quality,
    {
        self.quality
    }

    /// Getter for the size ratio, in thousandths.
    pub fn size_ratio(&self) -> (r: u16)
        ensures
            r == self.size_ratio,
    {
        self.size_ratio
    }
}

impl Default for Factor {
    /// Quality 80, size ratio 0.8.
    fn default() -> (r: Factor)
        ensures
            r.quality == 8000,
            r.size_ratio == 800,
            r.valid(),
    {
        Factor { quality: 8000, size_ratio: 800 }
    }
}

/// Why compressing one file failed.
#[derive(Debug, Clone, Copy, PartialEq, Eq, Structural)]
pub enum CompressError {
    /// The target file already exists and overwriting is off.
    AlreadyExists,
    /// The source does not decode as an image; a verbatim copy was made.
    UnsupportedFormat,
    /// A file or directory needed for the step is missing or in the way.
    Io,
    /// The encoder rejected the job.
    Encode,
}

impl CompressError {
    /// The error text, as reported to observers.
    pub open spec fn spec_message(self) -> Seq<char> {
        match self {
            CompressError::AlreadyExists => "the compressed file already exists"@,
            CompressError::UnsupportedFormat => "cannot convert the file; copied it instead"@,
            CompressError::Io => "a file or directory is missing or in the way"@,
            CompressError::Encode => "the encoder rejected the image"@,
        }
    }

    /// The error text, as reported to observers.
    pub fn message(&self) -> (r: String)
        ensures
            r@ == self.spec_message(),
    {
        match self {
            CompressError::AlreadyExists => String::from_str(
                "the compressed file already exists",
            ),
            CompressError::UnsupportedFormat => String::from_str(
                "cannot convert the file; copied it instead",
            ),
            CompressError::Io => String::from_str(
                "a file or directory is missing or in the way",
            ),
            CompressError::Encode => String::from_str("the encoder rejected the image"),
        }
    }
}

/// What `image::load_from_memory` makes of the given bytes: the width and
/// height of the decoded image, or nothing when they do not decode.
pub uninterp spec fn decoded_dims(content: Seq<u8>) -> Option<(nat, nat)>;

/// The RGB pixel rows that decoding the given bytes and resizing the
/// image to `w` by `h` with the triangle filter produces.
pub uninterp spec fn scaled_rgb(content: Seq<u8>, w: nat, h: nat) -> Seq<u8>;

/// The JPEG bytes that mozjpeg produces for the given RGB rows,
/// dimensions and whole-point quality — or nothing when the encoder
/// declines the job.
pub uninterp spec fn jpeg_encoding(rgb: Seq<u8>, w: nat, h: nat, quality: nat) -> Option<
    Seq<u8>,
>;

#[verifier::external_type_specification]
#[verifier::external_body]
pub struct ExDynamicImage(image::DynamicImage);

/// The bytes a decoded image was decoded from.
pub uninterp spec fn image_source(img: image::DynamicImage) -> Seq<u8>;

/// Relies on `image::load_from_memory`, `DynamicImage::width` and
/// `DynamicImage::height`: whether the bytes decode, and the dimensions
/// of the decoded image, depend on the bytes alone.
#[verifier::external_body]
fn decode_image(content: &Vec<u8>) -> (r: Result<(image::DynamicImage, u32, u32), String>)
    ensures
        r is Ok <==> decoded_dims(content@) is Some,
        r matches Ok((img, w, h)) ==> decoded_dims(content@) == Some(((w as nat), (h as nat)))
            && image_source(img) == content@,
{
    match image::load_from_memory(content) {
        Ok(img) => {
            let w = img.width();
            let h = img.height();
            Ok((img, w, h))
        },
        Err(e) => Err(e.to_string()),
    }
}

/// Relies on `DynamicImage::resize_exact` with the triangle filter,
/// `into_rgb8` and `ImageBuffer::into_raw`: the result has exactly the
/// requested dimensions, three bytes per pixel, and depends only on the
/// source bytes and the target size.
#[verifier::external_body]
fn resize_to_rgb(img: &image::DynamicImage, nw: u32, nh: u32) -> (r: Vec<u8>)
    requires
        1 <= nw,
        1 <= nh,
        3 * nw * nh <= usize::MAX,
    ensures
        r@ == scaled_rgb(image_source(*img), nw as nat, nh as nat),
        r@.len() == 3 * nw * nh,
{
    img.resize_exact(nw, nh, image::imageops::FilterType::Triangle).into_rgb8().into_raw()
}

/// Relies on mozjpeg's `Compress`: quality is truncated to whole points
/// by the library itself; scan optimization is switched on as the
/// encoder is set up; with an in-memory writer the outcome and the
/// encoded bytes depend only on the pixel rows, the dimensions and the
/// quality.  Dimensions the JPEG format cannot hold, or a buffer of the
/// wrong length, would make the library abort, so they are excluded.
#[verifier::external_body]
fn encode_jpeg(rgb: &Vec<u8>, w: usize, h: usize, quality: u16) -> (r: Result<Vec<u8>, String>)
    requires
        1 <= w <= 65500,
        1 <= h <= 65500,
        rgb@.len() == 3 * w * h,
        quality <= 100,
    ensures
        r is Ok <==> jpeg_encoding(rgb@, w as nat, h as nat, quality as nat) is Some,
        r matches Ok(bytes) ==> Some(bytes@) == jpeg_encoding(
            rgb@,
            w as nat,
            h as nat,
            quality as nat,
        ),
{
    let mut comp = mozjpeg::Compress::new(mozjpeg::ColorSpace::JCS_RGB);
    comp.set_scan_optimization_mode(mozjpeg::ScanMode::Auto);
    comp.set_quality(quality.into());
    comp.set_size(w, h);
    comp.set_optimize_scans(true);
    let mut started = comp.start_compress(Vec::new()).map_err(|e| e.to_string())?;
    started.write_scanlines(rgb).map_err(|e| e.to_string())?;
    started.finish().map_err(|e| e.to_string())
}

/// One scaled dimension: `d` thousandths-scaled by `ratio`, truncated,
/// but never below one pixel.
pub open spec fn scale_dim(d: nat, ratio: nat) -> nat {
    if d * ratio / 1000 == 0 {
        1
    } else {
        d * ratio / 1000
    }
}

/// The outcome of compressing one file body with the given whole-point
/// quality and thousandths size ratio.
pub open spec fn spec_compress_bytes(content: Seq<u8>, quality: nat, ratio: nat) -> Result<
    Seq<u8>,
    CompressError,
> {
    match decoded_dims(content) {
        Option::None => Err(CompressError::UnsupportedFormat),
        Option::Some(dims) => {
            let nw = scale_dim(dims.0, ratio);
            let nh = scale_dim(dims.1, ratio);
            if nw > 65500 || nh > 65500 || 3 * nw * nh > usize::MAX {
                Err(CompressError::Encode)
            } else {
                match jpeg_encoding(scaled_rgb(content, nw, nh), nw, nh, quality) {
                    Option::None => Err(CompressError::Encode),
                    Option::Some(b) => Ok(b),
                }
            }
        },
    }
}

/// The mathematical value of a byte-compression result.
pub open spec fn bytes_result_view(r: Result<Vec<u8>, CompressError>) -> Result<
    Seq<u8>,
    CompressError,
> {
    match r {
        Ok(b) => Ok(b@),
        Err(e) => Err(e),
    }
}

/// Decode, scale and re-encode one file body.  The outcome is the
/// function of the bytes and the factor given by `spec_compress_bytes`.
pub fn compress_bytes(content: &Vec<u8>, factor: &Factor) -> (r: Result<Vec<u8>, CompressError>)
    requires
        factor.valid(),
    ensures
        bytes_result_view(r) == spec_compress_bytes(
            content@,
            factor.spec_quality_points(),
            factor.size_ratio as nat,
        ),
{
    let (img, w, h) = match decode_image(content) {
        Ok(t) => t,
        Err(_) => {
            return Err(CompressError::UnsupportedFormat);
        },
    };
    let ratio = factor.size_ratio;
    let nw64 = scale_dim_exec(w, ratio);
    let nh64 = scale_dim_exec(h, ratio);
    if nw64 > 65500 || nh64 > 65500 {
        return Err(CompressError::Encode);
    }
    proof {
        assert(nw64 * nh64 <= 65500 * 65500) by (nonlinear_arith)
            requires
                0 <= nw64 <= 65500,
                0 <= nh64 <= 65500,
        ;
    }
    let total = 3u64 * (nw64 * nh64);
    proof {
        assert(3 * ((nw64 as int) * (nh64 as int)) == 3 * (nw64 as int) * (nh64 as int)) by (
        nonlinear_arith);
    }
    if total > usize::MAX as u64 {
        return Err(CompressError::Encode);
    }
    let nw = nw64 as u32;
    let nh = nh64 as u32;
    let rgb = resize_to_rgb(&img, nw, nh);
    let quality = factor.quality / 100;
    match encode_jpeg(&rgb, nw as usize, nh as usize, quality) {
        Ok(bytes) => Ok(bytes),
        Err(_) => Err(CompressError::Encode),
    }
}

/// The mathematical value of a compression result carrying a path.
pub open spec fn path_result_view(r: Result<Vec<String>, CompressError>) -> Result<
    Seq<Seq<char>>,
    CompressError,
> {
    match r {
        Ok(p) => Ok(p.deep_view()),
        Err(e) => Err(e),
    }
}

/// A single-file compressor: one source file, one destination directory,
/// a factor, and the flags that gate deletion and overwriting.
pub struct Compressor {
    pub factor: Factor,
    pub source_path: Vec<String>,
    pub dest_path: Vec<String>,
    pub delete_source: bool,
    pub overwrite: bool,
}

impl Compressor {
    /// The name of the compressed output file.
    pub open spec fn spec_target_name(self) -> Seq<char> {
        jpg_name(self.source_path.deep_view().last())
    }

    /// The path of the compressed output file.
    pub open spec fn spec_target(self) -> Seq<Seq<char>> {
        self.dest_path.deep_view().push(self.spec_target_name())
    }

    /// The path a verbatim copy goes to when the source does not decode.
    pub open spec fn spec_copy_target(self) -> Seq<Seq<char>> {
        self.dest_path.deep_view().push(self.source_path.deep_view().last())
    }

    /// The outcome of one compression over the given tree: which error
    /// comes back on which state, and the output path on success.
    pub open spec fn spec_outcome(self, fs: Fs) -> Result<Seq<Seq<char>>, CompressError> {
        if fs.has_file(self.spec_target()) && !self.overwrite {
            Err(CompressError::AlreadyExists)
        } else if !fs.has_file(self.source_path.deep_view()) {
            Err(CompressError::Io)
        } else if !fs.has_dir(self.dest_path.deep_view()) {
            Err(CompressError::Io)
        } else {
            match spec_compress_bytes(
                fs.file_data(self.source_path.deep_view()),
                self.factor.spec_quality_points(),
                self.factor.size_ratio as nat,
            ) {
                Result::Err(CompressError::UnsupportedFormat) => if fs.has_dir(
                    self.spec_copy_target(),
                ) {
                    Err(CompressError::Io)
                } else {
                    Err(CompressError::UnsupportedFormat)
                },
                Result::Err(e) => Err(e),
                Result::Ok(_) => if fs.has_dir(self.spec_target()) {
                    Err(CompressError::Io)
                } else {
                    Ok(self.spec_target())
                },
            }
        }
    }

    /// The encoded bytes of a successful compression over the given tree.
    pub open spec fn spec_encoded(self, fs: Fs) -> Seq<u8> {
        spec_compress_bytes(
            fs.file_data(self.source_path.deep_view()),
            self.factor.spec_quality_points(),
            self.factor.size_ratio as nat,
        )->Ok_0
    }

    /// A new compressor for one source file and one destination
    /// directory, with the default factor and both flags off.
    pub fn new(source_dir: Vec<String>, dest_dir: Vec<String>) -> (r: Compressor)
        ensures
            r.source_path == source_dir,
            r.dest_path == dest_dir,
            r.factor.quality == 8000,
            r.factor.size_ratio == 800,
            r.factor.valid(),
            !r.delete_source,
            !r.overwrite,
    {
        Compressor {
            factor: Factor::default(),
            source_path: source_dir,
            dest_path: dest_dir,
            delete_source: false,
            overwrite: false,
        }
    }

    /// Set the factor used to compress the image.
    pub fn set_factor(&mut self, factor: Factor)
        ensures
            *final(self) == (Compressor { factor, ..*old(self) }),
    {
        self.factor = factor;
    }

    /// Set whether the source file is deleted after a successful write.
    pub fn set_delete_source(&mut self, to_delete: bool)
        ensures
            *final(self) == (Compressor { delete_source: to_delete, ..*old(self) }),
    {
        self.delete_source = to_delete;
    }

    /// Set whether an existing target file may be overwritten.
    pub fn set_overwrite(&mut self, overwrite: bool)
        ensures
            *final(self) == (Compressor { overwrite, ..*old(self) }),
    {
        self.overwrite = overwrite;
    }

    /// Compress the source file into the destination directory.
    ///
    /// The target name is the source stem with a `jpg` extension.  An
    /// existing target fails the job before anything happens, unless
    /// overwriting is on.  A source that does not decode is copied
    /// verbatim under its own name, and the job still reports failure.
    /// On success the encoded bytes stand at the target, and the source
    /// is deleted only when that is asked for and the source is not
    /// itself the target.
    #[verifier::rlimit(60)]
    pub fn compress_to_jpg(&self, fs: &mut Fs) -> (r: Result<Vec<String>, CompressError>)
        requires
            old(fs).wf(),
            self.factor.valid(),
            self.source_path@.len() > 0,
        ensures
            final(fs).wf(),
            final(fs).dirs == old(fs).dirs,
            forall|q: Seq<Seq<char>>| final(fs).has_dir(q) == old(fs).has_dir(q),
            path_result_view(r) == self.spec_outcome(*old(fs)),
            (self.spec_outcome(*old(fs)) matches Err(e) && e != CompressError::UnsupportedFormat)
                ==> *final(fs) == *old(fs),
            self.spec_outcome(*old(fs)) == Result::<Seq<Seq<char>>, CompressError>::Err(
                CompressError::UnsupportedFormat,
            ) ==> {
                &&& final(fs).has_file(self.spec_copy_target())
                &&& final(fs).file_data(self.spec_copy_target()) == old(fs).file_data(
                    self.source_path.deep_view(),
                )
                &&& forall|q: Seq<Seq<char>>|
                    q != self.spec_copy_target() ==> final(fs).has_file(q) == old(fs).has_file(q)
                &&& forall|q: Seq<Seq<char>>|
                    q != self.spec_copy_target() && old(fs).has_file(q) ==> final(fs).file_data(
                        q,
                    ) == old(fs).file_data(q)
            },
            self.spec_outcome(*old(fs)) is Ok ==> {
                &&& final(fs).has_file(self.spec_target())
                &&& final(fs).file_data(self.spec_target()) == self.spec_encoded(*old(fs))
                &&& (self.delete_source && self.source_path.deep_view() != self.spec_target()
                    ==> !final(fs).has_file(self.source_path.deep_view()))
                &&& forall|q: Seq<Seq<char>>|
                    q != self.spec_target() && !(self.delete_source && q
                        == self.source_path.deep_view()) ==> final(fs).has_file(q) == old(fs).has_file(q)
                &&& forall|q: Seq<Seq<char>>|
                    q != self.spec_target() && !(self.delete_source && q
                        == self.source_path.deep_view()) && old(fs).has_file(q) ==> final(fs).file_data(q) == old(fs).file_data(q)
            },
    {
        let source_name = file_name(&self.source_path);
        let target_name = jpg_target_name(&source_name);
        let target = join_one(&self.dest_path, &target_name);
        proof {
            assert(target.deep_view() == self.spec_target());
        }
        if fs.is_file(&target) && !self.overwrite {
            return Err(CompressError::AlreadyExists);
        }
        let data = match fs.read_file(&self.source_path) {
            Some(d) => d,
            None => {
                return Err(CompressError::Io);
            },
        };
        if !fs.is_dir(&self.dest_path) {
            return Err(CompressError::Io);
        }
        match compress_bytes(&data, &self.factor) {
            Err(CompressError::UnsupportedFormat) => {
                let copy_target = join_one(&self.dest_path, &source_name);
                proof {
                    assert(copy_target.deep_view() == self.spec_copy_target());
                }
                if fs.is_dir(&copy_target) {
                    return Err(CompressError::Io);
                }
                fs.write_file(&copy_target, data);
                Err(CompressError::UnsupportedFormat)
            },
            Err(e) => Err(e),
            Ok(encoded) => {
                if fs.is_dir(&target) {
                    return Err(CompressError::Io);
                }
                let ghost encoded_view = encoded@;
                fs.write_file(&target, encoded);
                if self.delete_source && !path_eq(&self.source_path, &target) {
                    fs.remove_file(&self.source_path);
                }
                Ok(target)
            },
        }
    }
}

/// One scaled dimension, as executed: matches `scale_dim`.
fn scale_dim_exec(d: u32, ratio: u16) -> (r: u64)
    requires
        0 < ratio <= 1000,
    ensures
        r == scale_dim(d as nat, ratio as nat),
        r <= 0xffff_ffffu64,
{
    proof {
        assert((d as int) * (ratio as int) <= 0xffff_ffff * 1000) by (nonlinear_arith)
            requires
                d <= 0xffff_ffffu32,
                ratio <= 1000,
        ;
        assert((d as int) * (ratio as int) / 1000 <= (d as int) * 1000 / 1000) by (
        nonlinear_arith)
            requires
                0 < ratio <= 1000,
                0 <= d,
        ;
        assert((d as int) * 1000 / 1000 == d as int) by (nonlinear_arith);
    }
    let scaled = (d as u64) * (ratio as u64) / 1000;
    if scaled == 0 {
        1
    } else {
        scaled
    }
}

} // verus!
