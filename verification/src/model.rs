use vstd::prelude::*;

verus! {

/// Upper bound on the raw byte size of a frame and on the sample count of any plane.
pub const MAX_FRAME_BYTES: usize = 1073741824;

/// Errors reported by the codec. The text describes the first check that failed.
#[derive(Debug)]
pub enum CodecError {
    InvalidInput(&'static str),
    Malformed(&'static str),
    LimitExceeded(&'static str),
}

impl CodecError {
    /// The description of an error: its kind, a colon and a space, then its message.
    pub open spec fn spec_describe(&self) -> Seq<char> {
        match self {
            CodecError::InvalidInput(message) => "invalid input: "@ + message@,
            CodecError::Malformed(message) => "malformed stream: "@ + message@,
            CodecError::LimitExceeded(message) => "resource limit exceeded: "@ + message@,
        }
    }

    /// Human-readable description, in the form `kind: message`.
    pub fn describe(&self) -> (text: String)
        ensures
            text@ == self.spec_describe(),
    {
        match self {
            CodecError::InvalidInput(message) => describe_error("invalid input: ", message),
            CodecError::Malformed(message) => describe_error("malformed stream: ", message),
            CodecError::LimitExceeded(message) => describe_error(
                "resource limit exceeded: ",
                message,
            ),
        }
    }
}

/// The prefix followed by the message.
fn describe_error(prefix: &str, message: &str) -> (text: String)
    ensures
        text@ == prefix@ + message@,
{
    let mut text = String::from_str(prefix);
    text.append(message);
    text
}

#[derive(Clone, Copy, Debug, PartialEq, Eq, Structural)]
pub enum PixelFormat {
    Gray8,
    Yuv422p8,
    Gray10,
    Yuv422p10,
    Gray12,
    Yuv422p12,
    Gray16,
    Yuv422p16,
}

impl PixelFormat {
    pub open spec fn spec_bit_depth(self) -> u8 {
        match self {
            PixelFormat::Gray8 | PixelFormat::Yuv422p8 => 8,
            PixelFormat::Gray10 | PixelFormat::Yuv422p10 => 10,
            PixelFormat::Gray12 | PixelFormat::Yuv422p12 => 12,
            PixelFormat::Gray16 | PixelFormat::Yuv422p16 => 16,
        }
    }

    pub open spec fn spec_is_grayscale(self) -> bool {
        match self {
            PixelFormat::Gray8 | PixelFormat::Gray10 | PixelFormat::Gray12
            | PixelFormat::Gray16 => true,
            _ => false,
        }
    }

    /// The byte that identifies the format in an 8-bit stream header.
    pub open spec fn spec_code(self) -> u8 {
        match self {
            PixelFormat::Gray8 => 0,
            PixelFormat::Yuv422p8 => 1,
            PixelFormat::Gray10 => 2,
            PixelFormat::Yuv422p10 => 3,
            PixelFormat::Gray12 => 4,
            PixelFormat::Yuv422p12 => 5,
            PixelFormat::Gray16 => 6,
            PixelFormat::Yuv422p16 => 7,
        }
    }

    pub fn bit_depth(self) -> (depth: u8)
        ensures
            depth == self.spec_bit_depth(),
    {
        match self {
            PixelFormat::Gray8 | PixelFormat::Yuv422p8 => 8,
            PixelFormat::Gray10 | PixelFormat::Yuv422p10 => 10,
            PixelFormat::Gray12 | PixelFormat::Yuv422p12 => 12,
            PixelFormat::Gray16 | PixelFormat::Yuv422p16 => 16,
        }
    }

    pub fn is_grayscale(self) -> (gray: bool)
        ensures
            gray == self.spec_is_grayscale(),
    {
        match self {
            PixelFormat::Gray8 | PixelFormat::Gray10 | PixelFormat::Gray12
            | PixelFormat::Gray16 => true,
            _ => false,
        }
    }

    pub fn is_high_bit_depth(self) -> (high: bool)
        ensures
            high == (self.spec_bit_depth() > 8),
    {
        self.bit_depth() > 8
    }

    pub fn code(self) -> (code: u8)
        ensures
            code == self.spec_code(),
    {
        match self {
            PixelFormat::Gray8 => 0,
            PixelFormat::Yuv422p8 => 1,
            PixelFormat::Gray10 => 2,
            PixelFormat::Yuv422p10 => 3,
            PixelFormat::Gray12 => 4,
            PixelFormat::Yuv422p12 => 5,
            PixelFormat::Gray16 => 6,
            PixelFormat::Yuv422p16 => 7,
        }
    }

    /// Inverse of `code`: the format whose header byte is `value`.
    pub fn from_code(value: u8) -> (r: Result<PixelFormat, CodecError>)
        ensures
            r matches Ok(format) ==> format.spec_code() == value,
            r is Ok <==> value < 8,
            r is Err ==> r == Err::<PixelFormat, CodecError>(CodecError::Malformed("unknown pixel format")),
    {
        match value {
            0 => Ok(PixelFormat::Gray8),
            1 => Ok(PixelFormat::Yuv422p8),
            2 => Ok(PixelFormat::Gray10),
            3 => Ok(PixelFormat::Yuv422p10),
            4 => Ok(PixelFormat::Gray12),
            5 => Ok(PixelFormat::Yuv422p12),
            6 => Ok(PixelFormat::Gray16),
            7 => Ok(PixelFormat::Yuv422p16),
            _ => Err(CodecError::Malformed("unknown pixel format")),
        }
    }

    pub fn from_layout_and_depth(grayscale: bool, bit_depth: u8) -> (r: Result<
        PixelFormat,
        CodecError,
    >)
        ensures
            r matches Ok(format) ==> format.spec_is_grayscale() == grayscale
                && format.spec_bit_depth() == bit_depth,
            r is Ok <==> supported_bit_depth(bit_depth),
            r is Err ==> r == Err::<PixelFormat, CodecError>(
                CodecError::InvalidInput("bit depth must be 8, 10, 12, or 16"),
            ),
    {
        match (grayscale, bit_depth) {
            (true, 8) => Ok(PixelFormat::Gray8),
            (false, 8) => Ok(PixelFormat::Yuv422p8),
            (true, 10) => Ok(PixelFormat::Gray10),
            (false, 10) => Ok(PixelFormat::Yuv422p10),
            (true, 12) => Ok(PixelFormat::Gray12),
            (false, 12) => Ok(PixelFormat::Yuv422p12),
            (true, 16) => Ok(PixelFormat::Gray16),
            (false, 16) => Ok(PixelFormat::Yuv422p16),
            _ => Err(CodecError::InvalidInput("bit depth must be 8, 10, 12, or 16")),
        }
    }
}

pub open spec fn supported_bit_depth(bit_depth: u8) -> bool {
    bit_depth == 8 || bit_depth == 10 || bit_depth == 12 || bit_depth == 16
}

/// Largest sample value representable at a supported bit depth.
pub open spec fn spec_sample_max(bit_depth: u8) -> int {
    if bit_depth == 16 {
        65535
    } else if bit_depth == 12 {
        4095
    } else if bit_depth == 10 {
        1023
    } else {
        255
    }
}

pub fn sample_max(bit_depth: u8) -> (r: Result<u16, CodecError>)
    ensures
        r matches Ok(maximum) ==> maximum == spec_sample_max(bit_depth),
        r is Ok <==> supported_bit_depth(bit_depth),
        r is Err ==> r == Err::<u16, CodecError>(CodecError::InvalidInput("bit depth must be 8, 10, 12, or 16")),
{
    match bit_depth {
        8 => Ok(255),
        10 => Ok(1023),
        12 => Ok(4095),
        16 => Ok(65535),
        _ => Err(CodecError::InvalidInput("bit depth must be 8, 10, 12, or 16")),
    }
}

#[derive(Clone, Copy, Debug, PartialEq, Eq, Structural)]
pub struct FrameRate {
    pub numerator: u32,
    pub denominator: u32,
}

impl FrameRate {
    pub open spec fn valid(self) -> bool {
        self.numerator != 0 && self.denominator != 0
    }

    pub fn new(numerator: u32, denominator: u32) -> (rate: FrameRate)
        ensures
            rate.numerator == numerator,
            rate.denominator == denominator,
    {
        FrameRate { numerator, denominator }
    }

    pub fn validate(self) -> (r: Result<(), CodecError>)
        ensures
            r is Ok <==> self.valid(),
            r is Err ==> r == Err::<(), CodecError>(
                CodecError::InvalidInput("frame-rate numerator and denominator must be nonzero"),
            ),
    {
        if self.numerator == 0 || self.denominator == 0 {
            return Err(
                CodecError::InvalidInput("frame-rate numerator and denominator must be nonzero"),
            );
        }
        Ok(())
    }
}

/// `ceil(value / 2)`, the chroma width of a 4:2:2 frame.
pub open spec fn half_up(value: int) -> int {
    (value + 1) / 2
}

pub fn half_up_u32(value: u32) -> (r: u32)
    ensures
        r == half_up(value as int),
{
    value / 2 + value % 2
}

/// Width and height of each plane of a frame with the given layout.
pub open spec fn plane_dims(width: u32, height: u32, grayscale: bool) -> Seq<(u32, u32)> {
    if grayscale {
        seq![(width, height)]
    } else {
        seq![
            (width, height),
            (half_up(width as int) as u32, height),
            (half_up(width as int) as u32, height),
        ]
    }
}

/// Samples in all planes of a frame with the given layout.
pub open spec fn frame_samples(width: u32, height: u32, grayscale: bool) -> int {
    if grayscale {
        width * height
    } else {
        width * height + 2 * (half_up(width as int) * height)
    }
}

pub fn checked_area(width: u32, height: u32) -> (r: Result<usize, CodecError>)
    ensures
        r matches Ok(a) ==> a == width * height && a <= MAX_FRAME_BYTES,
        r is Ok <==> width * height <= MAX_FRAME_BYTES,
        r is Err ==> r matches Err(CodecError::LimitExceeded(_)),
{
    match (width as usize).checked_mul(height as usize) {
        Some(area) => {
            if area > MAX_FRAME_BYTES {
                Err(CodecError::LimitExceeded("plane is too large"))
            } else {
                Ok(area)
            }
        },
        None => Err(CodecError::LimitExceeded("plane is too large")),
    }
}

#[derive(Clone, Debug, PartialEq, Eq)]
pub struct Plane {
    pub width: u32,
    pub height: u32,
    pub data: Vec<u8>,
}

impl Plane {
    pub open spec fn shaped(&self, width: u32, height: u32) -> bool {
        &&& self.width == width
        &&& self.height == height
        &&& self.data.len() == width * height
    }

    pub fn new(width: u32, height: u32, data: Vec<u8>) -> (r: Result<Plane, CodecError>)
        ensures
            r matches Ok(plane) ==> plane.width == width && plane.height == height && plane.data
                == data,
            r is Ok <==> width * height <= MAX_FRAME_BYTES && data.len() == width * height,
            r matches Err(CodecError::LimitExceeded(_)) <==> width * height > MAX_FRAME_BYTES,
            r is Err ==> !(r matches Err(CodecError::Malformed(_))),
    {
        let expected = checked_area(width, height)?;
        if data.len() != expected {
            return Err(CodecError::InvalidInput("plane data length does not match dimensions"));
        }
        Ok(Plane { width, height, data })
    }
}

/// Shape of an 8-bit frame, every check of `Frame::validate` except the size limit.
pub open spec fn frame_shape_ok(
    width: u32,
    height: u32,
    format: PixelFormat,
    frame_rate: FrameRate,
    planes: Seq<Plane>,
) -> bool {
    let dims = plane_dims(width, height, format.spec_is_grayscale());
    &&& frame_rate.valid()
    &&& width > 0 && height > 0
    &&& format.spec_bit_depth() == 8
    &&& planes.len() == dims.len()
    &&& forall|i: int| 0 <= i < planes.len() ==> #[trigger] planes[i].shaped(dims[i].0, dims[i].1)
}

#[derive(Clone, Debug, PartialEq, Eq)]
pub struct Frame {
    pub width: u32,
    pub height: u32,
    pub format: PixelFormat,
    pub frame_rate: FrameRate,
    pub planes: Vec<Plane>,
}

impl Frame {
    /// A frame that `validate` accepts.
    pub open spec fn valid(&self) -> bool {
        &&& frame_shape_ok(self.width, self.height, self.format, self.frame_rate, self.planes@)
        &&& frame_samples(self.width, self.height, self.format.spec_is_grayscale())
            <= MAX_FRAME_BYTES
    }

    pub open spec fn raw_len_spec(&self) -> int {
        sum_plane_lens(self.planes@)
    }

    pub fn gray8(width: u32, height: u32, frame_rate: FrameRate, data: Vec<u8>) -> (r: Result<
        Frame,
        CodecError,
    >)
        ensures
            r matches Ok(frame) ==> {
                &&& frame.valid()
                &&& frame.width == width && frame.height == height
                &&& frame.format == PixelFormat::Gray8 && frame.frame_rate == frame_rate
                &&& frame.planes.len() == 1 && frame.planes[0].data == data
            },
            r is Ok <==> {
                &&& frame_rate.valid() && width > 0 && height > 0
                &&& width * height <= MAX_FRAME_BYTES && data.len() == width * height
            },
    {
        let plane = Plane::new(width, height, data)?;
        let mut planes = Vec::new();
        planes.push(plane);
        let frame = Frame { width, height, format: PixelFormat::Gray8, frame_rate, planes };
        proof {
            assert(frame.planes@[0].shaped(width, height));
        }
        frame.validate()?;
        Ok(frame)
    }

    pub fn yuv422p8(
        width: u32,
        height: u32,
        frame_rate: FrameRate,
        y: Vec<u8>,
        cb: Vec<u8>,
        cr: Vec<u8>,
    ) -> (r: Result<Frame, CodecError>)
        ensures
            r matches Ok(frame) ==> {
                &&& frame.valid()
                &&& frame.width == width && frame.height == height
                &&& frame.format == PixelFormat::Yuv422p8 && frame.frame_rate == frame_rate
                &&& frame.planes.len() == 3
                &&& frame.planes[0].data == y && frame.planes[1].data == cb
                &&& frame.planes[2].data == cr
            },
            r is Ok <==> {
                &&& frame_rate.valid() && width > 0 && height > 0
                &&& y.len() == width * height
                &&& cb.len() == half_up(width as int) * height
                &&& cr.len() == half_up(width as int) * height
                &&& frame_samples(width, height, false) <= MAX_FRAME_BYTES
            },
    {
        let chroma_width = half_up_u32(width);
        let luma = Plane::new(width, height, y)?;
        let blue = Plane::new(chroma_width, height, cb)?;
        let red = Plane::new(chroma_width, height, cr)?;
        let mut planes = Vec::new();
        planes.push(luma);
        planes.push(blue);
        planes.push(red);
        let frame = Frame { width, height, format: PixelFormat::Yuv422p8, frame_rate, planes };
        proof {
            assert(frame.planes@[0].shaped(width, height));
            assert(frame.planes@[1].shaped(chroma_width, height));
            assert(frame.planes@[2].shaped(chroma_width, height));
            lemma_half_up_area(width, height);
        }
        frame.validate()?;
        Ok(frame)
    }

    pub fn raw_len(&self) -> (len: usize)
        requires
            self.raw_len_spec() <= usize::MAX,
        ensures
            len == self.raw_len_spec(),
    {
        let mut total: usize = 0;
        let mut index: usize = 0;
        while index < self.planes.len()
            invariant
                index <= self.planes.len(),
                total == sum_plane_lens(self.planes@.take(index as int)),
                self.raw_len_spec() <= usize::MAX,
            decreases self.planes.len() - index,
        {
            proof {
                lemma_sum_plane_lens_take(self.planes@, index as int);
                lemma_sum_plane_lens_prefix_bound(self.planes@, index as int + 1);
            }
            total = total + self.planes[index].data.len();
            index = index + 1;
        }
        proof {
            assert(self.planes@.take(index as int) =~= self.planes@);
        }
        total
    }

    pub fn validate(&self) -> (r: Result<(), CodecError>)
        ensures
            r is Ok <==> self.valid(),
            frame_shape_ok(self.width, self.height, self.format, self.frame_rate, self.planes@)
                && !self.valid() ==> r matches Err(CodecError::LimitExceeded(_)),
            !(self.frame_rate.valid() && self.width > 0 && self.height > 0
                && self.format.spec_bit_depth() == 8) ==> r matches Err(
                CodecError::InvalidInput(_),
            ),
            !self.frame_rate.valid() ==> r == Err::<(), CodecError>(
                CodecError::InvalidInput("frame-rate numerator and denominator must be nonzero"),
            ),
            self.frame_rate.valid() && (self.width == 0 || self.height == 0) ==> r == Err::<(), CodecError>(
                CodecError::InvalidInput("frame dimensions must be nonzero"),
            ),
            self.frame_rate.valid() && self.width > 0 && self.height > 0 && self.format.spec_bit_depth()
                != 8 ==> r == Err::<(), CodecError>(
                CodecError::InvalidInput("8-bit Frame requires an 8-bit pixel format"),
            ),
            self.frame_rate.valid() && self.width > 0 && self.height > 0 && self.format.spec_bit_depth()
                == 8 && self.planes.len() != (if self.format.spec_is_grayscale() { 1int } else { 3int })
                ==> r == Err::<(), CodecError>(
                CodecError::InvalidInput("plane count does not match pixel format"),
            ),
    {
        self.frame_rate.validate()?;
        if self.width == 0 || self.height == 0 {
            return Err(CodecError::InvalidInput("frame dimensions must be nonzero"));
        }
        let grayscale = match self.format {
            PixelFormat::Gray8 => true,
            PixelFormat::Yuv422p8 => false,
            _ => {
                return Err(CodecError::InvalidInput("8-bit Frame requires an 8-bit pixel format"));
            },
        };
        let expected_count: usize = if grayscale {
            1
        } else {
            3
        };
        if self.planes.len() != expected_count {
            return Err(CodecError::InvalidInput("plane count does not match pixel format"));
        }
        let chroma_width = half_up_u32(self.width);
        let ghost dims = plane_dims(self.width, self.height, grayscale);
        let mut total: usize = 0;
        let mut index: usize = 0;
        while index < expected_count
            invariant
                index <= expected_count,
                self.frame_rate.valid() && self.width > 0 && self.height > 0,
                self.format.spec_bit_depth() == 8,
                expected_count == self.planes.len(),
                expected_count == dims.len(),
                dims == plane_dims(self.width, self.height, grayscale),
                chroma_width == half_up(self.width as int),
                grayscale == self.format.spec_is_grayscale(),
                forall|i: int| 0 <= i < index ==> #[trigger] self.planes@[i].shaped(dims[i].0, dims[i].1),
                total == partial_area(dims, index as int),
                total <= MAX_FRAME_BYTES,
            decreases expected_count - index,
        {
            let width = if index == 0 {
                self.width
            } else {
                chroma_width
            };
            let height = self.height;
            assert(dims[index as int] == (width, height));
            let plane = &self.planes[index];
            if plane.width != width || plane.height != height {
                proof {
                    lemma_frame_shape_fails_at(self, dims, index as int);
                }
                return Err(CodecError::InvalidInput("plane dimensions do not match pixel format"));
            }
            let area = match checked_area(width, height) {
                Ok(area) => area,
                Err(error) => {
                    proof {
                        lemma_partial_area_monotone(dims, index as int + 1);
                        lemma_frame_samples_is_partial_area(self.width, self.height, grayscale);
                    }
                    return Err(error);
                },
            };
            if plane.data.len() != area {
                proof {
                    lemma_frame_shape_fails_at(self, dims, index as int);
                }
                return Err(CodecError::InvalidInput("plane data length does not match dimensions"));
            }
            if total > MAX_FRAME_BYTES - area {
                proof {
                    lemma_partial_area_monotone(dims, index as int + 1);
                    lemma_frame_samples_is_partial_area(self.width, self.height, grayscale);
                }
                return Err(CodecError::LimitExceeded("frame is too large"));
            }
            total = total + area;
            index = index + 1;
        }
        proof {
            lemma_frame_samples_is_partial_area(self.width, self.height, grayscale);
        }
        Ok(())
    }
}

/// Each plane of a valid frame is within the frame size limit.
pub proof fn lemma_frame_plane_bound(frame: &Frame, index: int)
    requires
        frame.valid(),
        0 <= index < frame.planes.len(),
    ensures
        frame.planes@[index].data.len() <= MAX_FRAME_BYTES,
        frame.planes@[index].data.len() == frame.planes@[index].width * frame.planes@[index].height,
        frame.planes@[index].height == frame.height,
        index == 0 ==> frame.planes@[index].width == frame.width,
        index > 0 ==> frame.planes@[index].width == half_up(frame.width as int),
{
    let dims = plane_dims(frame.width, frame.height, frame.format.spec_is_grayscale());
    assert(frame.planes@[index].shaped(dims[index].0, dims[index].1));
    let w = frame.width as int;
    let h = frame.height as int;
    let c = half_up(w);
    assert(w * h >= 0 && c * h >= 0) by (nonlinear_arith)
        requires
            w >= 0,
            h >= 0,
            c >= 0,
    ;
}

/// Each plane of a valid high-bit frame has its layout's shape, fits the size limit
/// at two bytes per sample, and holds samples within its bit depth.
pub proof fn lemma_frame16_plane_bound(frame: &Frame16, index: int)
    requires
        frame.valid(),
        0 <= index < frame.planes.len(),
    ensures
        2 * frame.planes@[index].data.len() <= MAX_FRAME_BYTES,
        frame.planes@[index].data.len() == frame.planes@[index].width * frame.planes@[index].height,
        frame.planes@[index].height == frame.height,
        index == 0 ==> frame.planes@[index].width == frame.width,
        index > 0 ==> frame.planes@[index].width == half_up(frame.width as int),
        samples_within(frame.planes@[index].data@, spec_sample_max(frame.format.spec_bit_depth())),
{
    let dims = plane_dims(frame.width, frame.height, frame.format.spec_is_grayscale());
    assert(frame.planes@[index].shaped(dims[index].0, dims[index].1));
    let w = frame.width as int;
    let h = frame.height as int;
    let c = half_up(w);
    assert(w * h >= 0 && c * h >= 0) by (nonlinear_arith)
        requires
            w >= 0,
            h >= 0,
            c >= 0,
    ;
}

/// Sum of the areas of the first `count` plane dimensions.
pub open spec fn partial_area(dims: Seq<(u32, u32)>, count: int) -> int
    decreases count,
{
    if count <= 0 {
        0
    } else {
        partial_area(dims, count - 1) + dims[count - 1].0 * dims[count - 1].1
    }
}

/// The running sum of plane areas never decreases.
pub proof fn lemma_partial_area_monotone(dims: Seq<(u32, u32)>, count: int)
    requires
        0 <= count <= dims.len(),
    ensures
        forall|later: int| count <= later <= dims.len() ==> partial_area(dims, count)
            <= #[trigger] partial_area(dims, later),
    decreases dims.len() - count,
{
    if count < dims.len() {
        lemma_partial_area_monotone(dims, count + 1);
        assert(dims[count].0 * dims[count].1 >= 0) by (nonlinear_arith);
    }
}

/// The sum of all plane areas is `frame_samples`.
pub proof fn lemma_frame_samples_is_partial_area(width: u32, height: u32, grayscale: bool)
    ensures
        partial_area(plane_dims(width, height, grayscale), plane_dims(width, height, grayscale).len() as int)
            == frame_samples(width, height, grayscale),
{
    let dims = plane_dims(width, height, grayscale);
    reveal_with_fuel(partial_area, 4);
    assert(half_up(width as int) >= 0);
    assert(half_up(width as int) <= u32::MAX);
    if !grayscale {
        assert(dims[1].0 == half_up(width as int));
        assert(partial_area(dims, 3) == width * height + half_up(width as int) * height + half_up(width as int) * height);
    }
}

proof fn lemma_frame_shape_fails_at(frame: &Frame, dims: Seq<(u32, u32)>, index: int)
    requires
        dims == plane_dims(frame.width, frame.height, frame.format.spec_is_grayscale()),
        0 <= index < frame.planes.len(),
        !frame.planes@[index].shaped(dims[index].0, dims[index].1),
    ensures
        !frame_shape_ok(frame.width, frame.height, frame.format, frame.frame_rate, frame.planes@),
{
}

proof fn lemma_half_up_area(width: u32, height: u32)
    ensures
        half_up(width as int) * height <= width * height,
        0 <= half_up(width as int) <= width,
{
    assert(half_up(width as int) * height <= width * height) by (nonlinear_arith)
        requires
            half_up(width as int) <= width,
            height >= 0,
    ;
}

pub open spec fn sum_plane_lens(planes: Seq<Plane>) -> int
    decreases planes.len(),
{
    if planes.len() == 0 {
        0
    } else {
        sum_plane_lens(planes.drop_last()) + planes.last().data.len()
    }
}

proof fn lemma_sum_plane_lens_take(planes: Seq<Plane>, index: int)
    requires
        0 <= index < planes.len(),
    ensures
        sum_plane_lens(planes.take(index + 1)) == sum_plane_lens(planes.take(index))
            + planes[index].data.len(),
{
    assert(planes.take(index + 1).drop_last() =~= planes.take(index));
}

proof fn lemma_sum_plane_lens_prefix_bound(planes: Seq<Plane>, count: int)
    requires
        0 <= count <= planes.len(),
    ensures
        sum_plane_lens(planes.take(count)) <= sum_plane_lens(planes),
    decreases planes.len() - count,
{
    if count < planes.len() {
        lemma_sum_plane_lens_prefix_bound(planes, count + 1);
        lemma_sum_plane_lens_take(planes, count);
    } else {
        assert(planes.take(count) =~= planes);
    }
}


#[derive(Clone, Debug, PartialEq, Eq)]
pub struct Plane16 {
    pub width: u32,
    pub height: u32,
    pub data: Vec<u16>,
}

/// Every sample of `data` is at most `maximum`.
pub open spec fn samples_within(data: Seq<u16>, maximum: int) -> bool {
    forall|i: int| 0 <= i < data.len() ==> #[trigger] data[i] <= maximum
}

/// Returns true when some sample exceeds `maximum`.
fn any_sample_exceeds(data: &Vec<u16>, maximum: u16) -> (exceeds: bool)
    ensures
        exceeds == !samples_within(data@, maximum as int),
{
    let mut index: usize = 0;
    while index < data.len()
        invariant
            index <= data.len(),
            samples_within(data@.take(index as int), maximum as int),
        decreases data.len() - index,
    {
        if data[index] > maximum {
            return true;
        }
        proof {
            assert forall|i: int| 0 <= i < index + 1 implies #[trigger] data@.take(
                index as int + 1,
            )[i] <= maximum by {
                if i < index {
                    assert(data@.take(index as int + 1)[i] == data@.take(index as int)[i]);
                }
            }
        }
        index = index + 1;
    }
    proof {
        assert(data@.take(index as int) =~= data@);
    }
    false
}

impl Plane16 {
    pub open spec fn shaped(&self, width: u32, height: u32) -> bool {
        &&& self.width == width
        &&& self.height == height
        &&& self.data.len() == width * height
    }

    pub fn new(width: u32, height: u32, bit_depth: u8, data: Vec<u16>) -> (r: Result<
        Plane16,
        CodecError,
    >)
        ensures
            r matches Ok(plane) ==> plane.width == width && plane.height == height && plane.data
                == data,
            r is Ok <==> {
                &&& width * height <= MAX_FRAME_BYTES
                &&& data.len() == width * height
                &&& supported_bit_depth(bit_depth)
                &&& samples_within(data@, spec_sample_max(bit_depth))
                &&& 2 * (width * height) <= MAX_FRAME_BYTES
            },
            r is Err ==> !(r matches Err(CodecError::Malformed(_))),
    {
        let expected = checked_area(width, height)?;
        if data.len() != expected {
            return Err(CodecError::InvalidInput("plane data length does not match dimensions"));
        }
        let max_sample = sample_max(bit_depth)?;
        if any_sample_exceeds(&data, max_sample) {
            return Err(CodecError::InvalidInput("plane sample exceeds signaled bit depth"));
        }
        if expected > MAX_FRAME_BYTES / 2 {
            return Err(CodecError::LimitExceeded("plane is too large"));
        }
        Ok(Plane16 { width, height, data })
    }
}

/// Shape of a high-bit frame, every check of `Frame16::validate` except the size limit.
pub open spec fn frame16_shape_ok(
    width: u32,
    height: u32,
    format: PixelFormat,
    frame_rate: FrameRate,
    planes: Seq<Plane16>,
) -> bool {
    let dims = plane_dims(width, height, format.spec_is_grayscale());
    &&& frame_rate.valid()
    &&& width > 0 && height > 0
    &&& format.spec_bit_depth() > 8
    &&& planes.len() == dims.len()
    &&& forall|i: int|
        0 <= i < planes.len() ==> #[trigger] planes[i].shaped(dims[i].0, dims[i].1)
            && samples_within(planes[i].data@, spec_sample_max(format.spec_bit_depth()))
}

#[derive(Clone, Debug, PartialEq, Eq)]
pub struct Frame16 {
    pub width: u32,
    pub height: u32,
    pub format: PixelFormat,
    pub frame_rate: FrameRate,
    pub planes: Vec<Plane16>,
}

pub open spec fn sum_plane16_lens(planes: Seq<Plane16>) -> int
    decreases planes.len(),
{
    if planes.len() == 0 {
        0
    } else {
        sum_plane16_lens(planes.drop_last()) + planes.last().data.len()
    }
}

proof fn lemma_sum_plane16_lens_take(planes: Seq<Plane16>, index: int)
    requires
        0 <= index < planes.len(),
    ensures
        sum_plane16_lens(planes.take(index + 1)) == sum_plane16_lens(planes.take(index))
            + planes[index].data.len(),
{
    assert(planes.take(index + 1).drop_last() =~= planes.take(index));
}

proof fn lemma_sum_plane16_lens_prefix_bound(planes: Seq<Plane16>, count: int)
    requires
        0 <= count <= planes.len(),
    ensures
        0 <= sum_plane16_lens(planes.take(count)) <= sum_plane16_lens(planes),
    decreases planes.len() - count,
{
    if count < planes.len() {
        lemma_sum_plane16_lens_prefix_bound(planes, count + 1);
        lemma_sum_plane16_lens_take(planes, count);
    } else {
        assert(planes.take(count) =~= planes);
    }
    lemma_sum_plane16_lens_nonnegative(planes.take(count));
}

proof fn lemma_sum_plane16_lens_nonnegative(planes: Seq<Plane16>)
    ensures
        sum_plane16_lens(planes) >= 0,
    decreases planes.len(),
{
    if planes.len() > 0 {
        lemma_sum_plane16_lens_nonnegative(planes.drop_last());
    }
}

impl Frame16 {
    /// A frame that `validate` accepts.
    pub open spec fn valid(&self) -> bool {
        &&& frame16_shape_ok(self.width, self.height, self.format, self.frame_rate, self.planes@)
        &&& 2 * frame_samples(self.width, self.height, self.format.spec_is_grayscale())
            <= MAX_FRAME_BYTES
    }

    pub open spec fn raw_len_spec(&self) -> int {
        2 * sum_plane16_lens(self.planes@)
    }

    pub fn gray(
        width: u32,
        height: u32,
        bit_depth: u8,
        frame_rate: FrameRate,
        data: Vec<u16>,
    ) -> (r: Result<Frame16, CodecError>)
        ensures
            r matches Ok(frame) ==> {
                &&& frame.valid()
                &&& frame.width == width && frame.height == height
                &&& frame.format.spec_is_grayscale()
                &&& frame.format.spec_bit_depth() == bit_depth
                &&& frame.frame_rate == frame_rate
                &&& frame.planes.len() == 1 && frame.planes[0].data == data
            },
            r is Ok <==> {
                &&& bit_depth == 10 || bit_depth == 12 || bit_depth == 16
                &&& frame_rate.valid() && width > 0 && height > 0
                &&& data.len() == width * height
                &&& samples_within(data@, spec_sample_max(bit_depth))
                &&& 2 * (width * height) <= MAX_FRAME_BYTES
            },
    {
        let format = PixelFormat::from_layout_and_depth(true, bit_depth)?;
        if !format.is_high_bit_depth() {
            return Err(CodecError::InvalidInput("Frame16 bit depth must be 10, 12, or 16"));
        }
        let plane = Plane16::new(width, height, bit_depth, data)?;
        let mut planes = Vec::new();
        planes.push(plane);
        let frame = Frame16 { width, height, format, frame_rate, planes };
        proof {
            assert(frame.planes@[0].shaped(width, height));
        }
        frame.validate()?;
        Ok(frame)
    }

    pub fn yuv422(
        width: u32,
        height: u32,
        bit_depth: u8,
        frame_rate: FrameRate,
        y: Vec<u16>,
        cb: Vec<u16>,
        cr: Vec<u16>,
    ) -> (r: Result<Frame16, CodecError>)
        ensures
            r matches Ok(frame) ==> {
                &&& frame.valid()
                &&& frame.width == width && frame.height == height
                &&& !frame.format.spec_is_grayscale()
                &&& frame.format.spec_bit_depth() == bit_depth
                &&& frame.frame_rate == frame_rate
                &&& frame.planes.len() == 3
                &&& frame.planes[0].data == y && frame.planes[1].data == cb
                &&& frame.planes[2].data == cr
            },
            r is Ok <==> {
                &&& bit_depth == 10 || bit_depth == 12 || bit_depth == 16
                &&& frame_rate.valid() && width > 0 && height > 0
                &&& y.len() == width * height
                &&& cb.len() == half_up(width as int) * height
                &&& cr.len() == half_up(width as int) * height
                &&& samples_within(y@, spec_sample_max(bit_depth))
                &&& samples_within(cb@, spec_sample_max(bit_depth))
                &&& samples_within(cr@, spec_sample_max(bit_depth))
                &&& 2 * frame_samples(width, height, false) <= MAX_FRAME_BYTES
            },
    {
        let format = PixelFormat::from_layout_and_depth(false, bit_depth)?;
        if !format.is_high_bit_depth() {
            return Err(CodecError::InvalidInput("Frame16 bit depth must be 10, 12, or 16"));
        }
        let chroma_width = half_up_u32(width);
        proof {
            lemma_half_up_area(width, height);
        }
        let luma = Plane16::new(width, height, bit_depth, y)?;
        let blue = Plane16::new(chroma_width, height, bit_depth, cb)?;
        let red = Plane16::new(chroma_width, height, bit_depth, cr)?;
        let mut planes = Vec::new();
        planes.push(luma);
        planes.push(blue);
        planes.push(red);
        let frame = Frame16 { width, height, format, frame_rate, planes };
        proof {
            assert(frame.planes@[0].shaped(width, height));
            assert(frame.planes@[1].shaped(chroma_width, height));
            assert(frame.planes@[2].shaped(chroma_width, height));
        }
        frame.validate()?;
        Ok(frame)
    }

    pub fn bit_depth(&self) -> (depth: u8)
        ensures
            depth == self.format.spec_bit_depth(),
    {
        self.format.bit_depth()
    }

    pub fn raw_len(&self) -> (len: usize)
        requires
            self.raw_len_spec() <= usize::MAX,
        ensures
            len == self.raw_len_spec(),
    {
        let mut total: usize = 0;
        let mut index: usize = 0;
        while index < self.planes.len()
            invariant
                index <= self.planes.len(),
                total == 2 * sum_plane16_lens(self.planes@.take(index as int)),
                self.raw_len_spec() <= usize::MAX,
            decreases self.planes.len() - index,
        {
            proof {
                lemma_sum_plane16_lens_take(self.planes@, index as int);
                lemma_sum_plane16_lens_prefix_bound(self.planes@, index as int + 1);
            }
            total = total + self.planes[index].data.len() * 2;
            index = index + 1;
        }
        proof {
            assert(self.planes@.take(index as int) =~= self.planes@);
        }
        total
    }

    pub fn validate(&self) -> (r: Result<(), CodecError>)
        ensures
            r is Ok <==> self.valid(),
            frame16_shape_ok(self.width, self.height, self.format, self.frame_rate, self.planes@)
                && !self.valid() ==> r matches Err(CodecError::LimitExceeded(_)),
            !(self.frame_rate.valid() && self.width > 0 && self.height > 0
                && self.format.spec_bit_depth() > 8) ==> r matches Err(
                CodecError::InvalidInput(_),
            ),
            !self.frame_rate.valid() ==> r == Err::<(), CodecError>(
                CodecError::InvalidInput("frame-rate numerator and denominator must be nonzero"),
            ),
            self.frame_rate.valid() && (self.width == 0 || self.height == 0) ==> r == Err::<(), CodecError>(
                CodecError::InvalidInput("frame dimensions must be nonzero"),
            ),
            self.frame_rate.valid() && self.width > 0 && self.height > 0 && self.format.spec_bit_depth()
                <= 8 ==> r == Err::<(), CodecError>(
                CodecError::InvalidInput("Frame16 requires a 10-, 12-, or 16-bit pixel format"),
            ),
            self.frame_rate.valid() && self.width > 0 && self.height > 0 && self.format.spec_bit_depth()
                > 8 && self.planes.len() != (if self.format.spec_is_grayscale() { 1int } else { 3int })
                ==> r == Err::<(), CodecError>(
                CodecError::InvalidInput("plane count does not match pixel format"),
            ),
    {
        self.frame_rate.validate()?;
        if self.width == 0 || self.height == 0 {
            return Err(CodecError::InvalidInput("frame dimensions must be nonzero"));
        }
        if !self.format.is_high_bit_depth() {
            return Err(
                CodecError::InvalidInput("Frame16 requires a 10-, 12-, or 16-bit pixel format"),
            );
        }
        let grayscale = self.format.is_grayscale();
        let expected_count: usize = if grayscale {
            1
        } else {
            3
        };
        if self.planes.len() != expected_count {
            return Err(CodecError::InvalidInput("plane count does not match pixel format"));
        }
        let max_sample = sample_max(self.bit_depth())?;
        let chroma_width = half_up_u32(self.width);
        let ghost dims = plane_dims(self.width, self.height, grayscale);
        let mut total: usize = 0;
        let mut index: usize = 0;
        while index < expected_count
            invariant
                index <= expected_count,
                self.frame_rate.valid() && self.width > 0 && self.height > 0,
                self.format.spec_bit_depth() > 8,
                max_sample == spec_sample_max(self.format.spec_bit_depth()),
                expected_count == self.planes.len(),
                expected_count == dims.len(),
                dims == plane_dims(self.width, self.height, grayscale),
                chroma_width == half_up(self.width as int),
                grayscale == self.format.spec_is_grayscale(),
                forall|i: int|
                    0 <= i < index ==> #[trigger] self.planes@[i].shaped(dims[i].0, dims[i].1)
                        && samples_within(self.planes@[i].data@, max_sample as int),
                total == 2 * partial_area(dims, index as int),
                total <= MAX_FRAME_BYTES,
            decreases expected_count - index,
        {
            let width = if index == 0 {
                self.width
            } else {
                chroma_width
            };
            let height = self.height;
            assert(dims[index as int] == (width, height));
            let area = match checked_area(width, height) {
                Ok(area) => area,
                Err(error) => {
                    proof {
                        lemma_partial_area_monotone(dims, index as int + 1);
                        lemma_frame_samples_is_partial_area(self.width, self.height, grayscale);
                    }
                    return Err(error);
                },
            };
            let plane = &self.planes[index];
            if plane.width != width || plane.height != height || plane.data.len() != area {
                proof {
                    assert(!self.planes@[index as int].shaped(dims[index as int].0, dims[index as int].1));
                }
                return Err(CodecError::InvalidInput("plane dimensions do not match pixel format"));
            }
            if any_sample_exceeds(&plane.data, max_sample) {
                proof {
                    assert(self.planes@[index as int].shaped(dims[index as int].0, dims[index as int].1));
                    assert(!samples_within(self.planes@[index as int].data@, max_sample as int));
                }
                return Err(CodecError::InvalidInput("plane sample exceeds signaled bit depth"));
            }
            if area > MAX_FRAME_BYTES / 2 || total > MAX_FRAME_BYTES - area * 2 {
                proof {
                    lemma_partial_area_monotone(dims, index as int + 1);
                    lemma_frame_samples_is_partial_area(self.width, self.height, grayscale);
                }
                return Err(CodecError::LimitExceeded("frame is too large"));
            }
            total = total + area * 2;
            index = index + 1;
        }
        proof {
            lemma_frame_samples_is_partial_area(self.width, self.height, grayscale);
        }
        Ok(())
    }
}

#[derive(Clone, Copy, Debug, PartialEq, Eq, Structural)]
pub struct CodecOptions {
    pub quality: u8,
    pub tile_width: u16,
    pub tile_height: u16,
    pub threads: usize,
}

impl Default for CodecOptions {
    fn default() -> (options: CodecOptions)
        ensures
            options.quality == 90 && options.tile_width == 256 && options.tile_height == 128
                && options.threads == 1,
    {
        CodecOptions { quality: 90, tile_width: 256, tile_height: 128, threads: 1 }
    }
}

impl CodecOptions {
    pub open spec fn valid(self) -> bool {
        &&& 1 <= self.quality <= 100
        &&& self.tile_width != 0 && self.tile_height != 0
        &&& self.threads != 0
    }

    pub fn validate(self) -> (r: Result<(), CodecError>)
        ensures
            r is Ok <==> self.valid(),
            r is Err ==> r matches Err(CodecError::InvalidInput(_)),
            !(1 <= self.quality <= 100) ==> r == Err::<(), CodecError>(
                CodecError::InvalidInput("quality must be in 1..=100"),
            ),
            1 <= self.quality <= 100 && (self.tile_width == 0 || self.tile_height == 0) ==> r == Err::<
                (),
                CodecError,
            >(CodecError::InvalidInput("tile dimensions must be nonzero")),
            1 <= self.quality <= 100 && self.tile_width != 0 && self.tile_height != 0 && self.threads
                == 0 ==> r == Err::<(), CodecError>(CodecError::InvalidInput("thread count must be nonzero")),
    {
        if self.quality < 1 || self.quality > 100 {
            return Err(CodecError::InvalidInput("quality must be in 1..=100"));
        }
        if self.tile_width == 0 || self.tile_height == 0 {
            return Err(CodecError::InvalidInput("tile dimensions must be nonzero"));
        }
        if self.threads == 0 {
            return Err(CodecError::InvalidInput("thread count must be nonzero"));
        }
        Ok(())
    }

    /// Scalar quantizer step of the 8-bit codec.
    pub fn quantization_step(self) -> (step: i32)
        requires
            self.quality <= 100,
        ensures
            step == spec_quantization_step(self.quality),
            5 * (step - 1) <= 100 - self.quality < 5 * step,
    {
        proof {
            lemma_quantization_step_bands(self.quality);
        }
        1 + ((100 - self.quality) / 5) as i32
    }
}

/// Step of the 8-bit quantizer at `quality`: 1 at quality 96..=100, up to 20 at quality 1.
pub open spec fn spec_quantization_step(quality: u8) -> int {
    1 + (100 - quality) / 5
}

/// The 8-bit quantizer step grows by one for every five quality points below 100:
/// step `s` serves exactly the qualities `q` with `5 (s - 1) <= 100 - q < 5 s`, so
/// qualities 96..=100 are lossless (step 1), quality 90 has step 3 and quality 1
/// step 20.
pub proof fn lemma_quantization_step_bands(quality: u8)
    requires
        quality <= 100,
    ensures
        5 * (spec_quantization_step(quality) - 1) <= 100 - quality < 5 * spec_quantization_step(quality),
        1 <= spec_quantization_step(quality) <= 21,
        spec_quantization_step(quality) == 1 <==> 96 <= quality,
        quality == 90 ==> spec_quantization_step(quality) == 3,
        quality == 1 ==> spec_quantization_step(quality) == 20,
        forall|other: u8|
            quality <= other <= 100 ==> spec_quantization_step(other) <= spec_quantization_step(quality),
{
}

/// Maps a residual known to lie in `[lower, upper]` to a code in `[0, upper - lower]`:
/// alternating signs while both sides remain possible, then the remaining side in order.
pub open spec fn spec_fold_bounded(value: int, lower: int, upper: int) -> int {
    let paired = if -lower < upper {
        -lower
    } else {
        upper
    };
    if value < -paired || value > paired {
        paired + (if value < 0 {
            -value
        } else {
            value
        })
    } else if value >= 0 {
        2 * value
    } else {
        -2 * value - 1
    }
}

/// Inverse of `spec_fold_bounded` on codes in range.
pub open spec fn spec_unfold_bounded(folded: int, lower: int, upper: int) -> Option<int> {
    if lower > 0 || upper < 0 || folded > upper - lower {
        None
    } else {
        let paired = if -lower < upper {
            -lower
        } else {
            upper
        };
        let value = if folded <= 2 * paired {
            if folded % 2 == 0 {
                folded / 2
            } else {
                -(folded / 2) - 1
            }
        } else if -lower < upper {
            folded - paired
        } else if upper < -lower {
            -(folded - paired)
        } else {
            lower - 1
        };
        if lower <= value <= upper {
            Some(value)
        } else {
            None
        }
    }
}

/// Code of a residual known to lie in `lower..=upper` (with `lower <= 0 <= upper`):
/// magnitudes on both sides of zero alternate, those beyond the shorter side follow
/// in order of magnitude. The code is computed in `i32`, so it must fit there.
pub fn fold_bounded_residual(value: i32, lower: i32, upper: i32) -> (folded: u32)
    requires
        i32::MIN < lower <= 0 <= upper,
        lower <= value <= upper,
        spec_fold_bounded(value as int, lower as int, upper as int) <= i32::MAX,
    ensures
        folded == spec_fold_bounded(value as int, lower as int, upper as int),
        folded <= upper - lower,
{
    let paired_magnitude = if -lower < upper {
        -lower
    } else {
        upper
    };
    if value < -paired_magnitude || value > paired_magnitude {
        let magnitude = if value < 0 {
            -value
        } else {
            value
        };
        (paired_magnitude + magnitude) as u32
    } else if value >= 0 {
        value as u32 * 2
    } else {
        ((-value) as u32) * 2 - 1
    }
}

pub fn unfold_bounded_residual(folded: u32, lower: i32, upper: i32) -> (value: Option<i32>)
    requires
        -0x4000_0000 <= lower,
        upper <= 0x4000_0000,
    ensures
        value matches Some(v) ==> spec_unfold_bounded(folded as int, lower as int, upper as int)
            == Some(v as int),
        value is None ==> spec_unfold_bounded(folded as int, lower as int, upper as int) is None,
{
    if lower > 0 || upper < 0 || folded as i64 > upper as i64 - lower as i64 {
        return None;
    }
    let paired_magnitude = if -lower < upper {
        -lower
    } else {
        upper
    };
    let paired_codes = paired_magnitude as u32 * 2;
    let value: i32 = if folded <= paired_codes {
        if folded % 2 == 0 {
            (folded / 2) as i32
        } else {
            -((folded / 2) as i32) - 1
        }
    } else if -lower < upper {
        folded as i32 - paired_magnitude
    } else if upper < -lower {
        -(folded as i32 - paired_magnitude)
    } else {
        return None;
    };
    if lower <= value && value <= upper {
        Some(value)
    } else {
        None
    }
}

/// Folding a residual of a known interval is a bijection onto `[0, upper - lower]`:
/// unfolding gives the residual back, and zero folds to zero.
pub proof fn lemma_fold_bounded_round_trip(value: int, lower: int, upper: int)
    requires
        lower <= 0 <= upper,
        lower <= value <= upper,
    ensures
        0 <= spec_fold_bounded(value, lower, upper) <= upper - lower,
        spec_unfold_bounded(spec_fold_bounded(value, lower, upper), lower, upper) == Some(value),
        spec_fold_bounded(0, lower, upper) == 0,
{
}

} // verus!
