//! Decoding of HEIC files through the C library libheif, step by step: which
//! call comes next, what is made of its outcome, and which resources are held.

use crate::number::decimal;
use crate::picture::rgb_image;
use crate::text::{chars_of, joined, same_text};
use vstd::arithmetic::div_mod::lemma_fundamental_div_mod_converse;
use vstd::prelude::*;

verus! {

/// The names under which libheif may be found on an operating system, most
/// specific first.
pub open spec fn library_names(os: Seq<char>) -> Seq<Seq<char>> {
    if os == "illumos"@ {
        seq!["/opt/ooce/lib/amd64/libheif.so.1"@, "libheif.so.1"@, "libheif.so"@]
    } else if os == "macos"@ {
        seq!["libheif.dylib"@]
    } else if os == "windows"@ {
        seq!["libheif.dll"@, "libheif-1.dll"@]
    } else {
        seq!["libheif.so.1"@, "libheif.so"@]
    }
}

/// The names under which libheif may be found on the operating system `os`.
pub fn libheif_library_names(os: &str) -> (names: Vec<String>)
    ensures
        crate::text::views(names@) == library_names(os@),
{
    let mut names: Vec<String> = Vec::new();
    if same_text(os, "illumos") {
        names.push("/opt/ooce/lib/amd64/libheif.so.1".to_owned());
        names.push("libheif.so.1".to_owned());
        names.push("libheif.so".to_owned());
    } else if same_text(os, "macos") {
        names.push("libheif.dylib".to_owned());
    } else if same_text(os, "windows") {
        names.push("libheif.dll".to_owned());
        names.push("libheif-1.dll".to_owned());
    } else {
        names.push("libheif.so.1".to_owned());
        names.push("libheif.so".to_owned());
    }
    proof {
        assert(crate::text::views(names@) =~= library_names(os@));
    }
    names
}

/// A signed number in decimal.
pub open spec fn signed_digits(n: int) -> Seq<char> {
    if n < 0 {
        seq!['-'] + crate::number::digits((-n) as nat)
    } else {
        crate::number::digits(n as nat)
    }
}

/// The text of an error of libheif: its message, else its code.
pub open spec fn error_text(code: i32, message: Option<Seq<char>>) -> Seq<char> {
    match message {
        Some(m) => m,
        None => "libheif error code "@ + signed_digits(code as int),
    }
}

/// The text of an error of libheif with this code and message.
pub fn err_text(code: i32, message: &Option<String>) -> (s: String)
    ensures
        s@ == error_text(code, crate::geocode::optional_view(*message)),
{
    match message {
        Some(m) => m.clone(),
        None => {
            let n = code as i64;
            let number = if n < 0 {
                proof {
                    reveal_strlit("-");
                    assert("-"@ == seq!['-']);
                }
                joined("-", &decimal((-n) as u64))
            } else {
                decimal(n as u64)
            };
            joined("libheif error code ", &number)
        },
    }
}

/// The rows of a plane without what fills them up to `stride` bytes.
pub open spec fn packed(plane: Seq<u8>, stride: int, row: int, rows: int) -> Seq<u8> {
    Seq::new((rows * row) as nat, |k: int| plane[(k / row) * stride + k % row])
}

/// The `rows` rows of `row` bytes in a plane whose rows begin every `stride`
/// bytes.
pub fn pack_rows(plane: &Vec<u8>, stride: usize, row: usize, rows: usize) -> (packed_rows: Vec<u8>)
    requires
        row > 0,
        rows > 0,
        (rows - 1) * stride + row <= plane@.len(),
    ensures
        packed_rows@ == packed(plane@, stride as int, row as int, rows as int),
{
    let mut r: Vec<u8> = Vec::new();
    let n = plane.len();
    let ghost all = packed(plane@, stride as int, row as int, rows as int);
    proof {
        assert(0 * row == 0) by (nonlinear_arith);
        assert(0 * stride == 0) by (nonlinear_arith);
    }
    let mut start: usize = 0;
    for y in 0..rows
        invariant
            n == plane@.len(),
            row > 0,
            (rows - 1) * stride + row <= n,
            all == packed(plane@, stride as int, row as int, rows as int),
            y < rows ==> start == y * stride,
            r@.len() == y * row,
            forall|k: int| 0 <= k < r@.len() ==> #[trigger] r@[k] == all[k],
    {
        proof {
            assert(y * stride <= (rows - 1) * stride) by (nonlinear_arith)
                requires
                    y <= rows - 1,
                    0 <= stride,
            ;
            assert(y * row + row <= rows * row) by (nonlinear_arith)
                requires
                    y + 1 <= rows,
                    0 <= row,
            ;
        }
        for x in 0..row
            invariant
                n == plane@.len(),
                row > 0,
                y < rows,
                start == y * stride,
                start + row <= n,
                y * row + row <= rows * row,
                all == packed(plane@, stride as int, row as int, rows as int),
                r@.len() == y * row + x,
                forall|k: int| 0 <= k < r@.len() ==> #[trigger] r@[k] == all[k],
        {
            proof {
                lemma_fundamental_div_mod_converse(y * row + x, row as int, y as int, x as int);
                assert(all[y * row + x] == plane@[y * stride + x]);
            }
            r.push(plane[start + x]);
        }
        proof {
            assert((y + 1) * row == y * row + row) by (nonlinear_arith);
            assert((y + 1) * stride == y * stride + stride) by (nonlinear_arith);
            if y + 1 < rows {
                assert((y + 1) * stride <= (rows - 1) * stride) by (nonlinear_arith)
                    requires
                        y + 1 <= rows - 1,
                        0 <= stride,
                ;
            }
        }
        if y + 1 < rows {
            start = start + stride;
        }
    }
    proof {
        assert(r@ =~= all);
    }
    r
}

/// The call that comes next.
#[derive(Debug, Clone, Copy, PartialEq, Eq, Structural)]
pub enum HeicAction {
    /// Look up the function that makes a context.
    FindAlloc,
    /// Make a context.
    AllocContext,
    /// Look up the function that frees a context.
    FindFree,
    /// Look up the functions that decode.
    FindDecoder,
    /// Read the file into the context.
    ReadFile,
    /// Get the handle of the primary image.
    GetPrimary,
    /// Decode the image behind the handle.
    DecodeImage,
    /// Release the handle.
    ReleaseHandle,
    /// Ask for size and plane of the decoded image.
    ReadPlane,
    /// Copy the plane, from its start to the end of its last row.
    CopyPlane,
    /// Release the decoded image.
    ReleaseImage,
    /// Free the context.
    FreeContext,
    /// Nothing: the result is there.
    Finish,
}

/// What came of a call.
pub enum HeicEvent {
    /// Functions were looked up: why one was not found, if so.
    Found(Option<String>),
    /// Whether there is a context.
    Allocated(bool),
    /// A function of libheif returned this code and message, and whether it
    /// gave an object.
    Called { code: i32, message: Option<String>, object: bool },
    /// Something was released.
    Released,
    /// Whether there is a plane, and width, height and stride.
    Plane { present: bool, width: i32, height: i32, stride: i32 },
    /// The bytes of the plane.
    Copied(Vec<u8>),
}

/// How far the decoding of a file has come.
pub struct HeicDecode {
    action: HeicAction,
    /// Why there is no image.
    failure: Option<String>,
    width: u32,
    height: u32,
    stride: u32,
    /// The pixels of the image.
    pixels: Vec<u8>,
    /// A context is held.
    has_context: bool,
    /// The function that frees the context was found.
    can_free: bool,
    /// A handle is held.
    has_handle: bool,
    /// A decoded image is held.
    has_image: bool,
}

/// What a `HeicDecode` holds.
pub struct HeicState {
    pub action: HeicAction,
    pub failure: Option<Seq<char>>,
    pub width: u32,
    pub height: u32,
    pub stride: u32,
    pub pixels: Seq<u8>,
    pub has_context: bool,
    pub can_free: bool,
    pub has_handle: bool,
    pub has_image: bool,
}

impl View for HeicDecode {
    type V = HeicState;

    closed spec fn view(&self) -> HeicState {
        HeicState {
            action: self.action,
            failure: crate::geocode::optional_view(self.failure),
            width: self.width,
            height: self.height,
            stride: self.stride,
            pixels: self.pixels@,
            has_context: self.has_context,
            can_free: self.can_free,
            has_handle: self.has_handle,
            has_image: self.has_image,
        }
    }
}

/// The beginning: nothing is held.
pub open spec fn beginning() -> HeicState {
    HeicState {
        action: HeicAction::FindAlloc,
        failure: None,
        width: 0,
        height: 0,
        stride: 0,
        pixels: seq![],
        has_context: false,
        can_free: false,
        has_handle: false,
        has_image: false,
    }
}

/// A state that goes on with `action` because of a failure.
pub open spec fn failed(s: HeicState, action: HeicAction, failure: Seq<char>) -> HeicState {
    HeicState { action, failure: Some(failure), ..s }
}

/// A state that goes on with `action`.
pub open spec fn going_on(s: HeicState, action: HeicAction) -> HeicState {
    HeicState { action, ..s }
}

/// Why a file cannot be decoded, told before any call.
pub open spec fn early_failure(library: bool, path: Option<Seq<char>>) -> Option<Seq<char>> {
    if !library {
        Some(
            "HEIC: system libheif not available at runtime (dlopen failed); install libheif to enable HEIC/HEIF"@,
        )
    } else {
        match path {
            None => Some("HEIC: non-UTF-8 path"@),
            Some(p) => if p.contains('\0') {
                Some("HEIC: path contains NUL byte"@)
            } else {
                None
            },
        }
    }
}

/// The bytes from the start of the plane to the end of its last row.
pub open spec fn plane_bytes(s: HeicState) -> int {
    (s.height - 1) * s.stride + s.width * 3
}

/// The outcome `e` is one that the action can have.
pub open spec fn answers(s: HeicState, e: HeicEvent) -> bool {
    match s.action {
        HeicAction::FindAlloc | HeicAction::FindFree | HeicAction::FindDecoder => e is Found,
        HeicAction::AllocContext => e is Allocated,
        HeicAction::ReadFile | HeicAction::GetPrimary | HeicAction::DecodeImage => e is Called,
        HeicAction::ReleaseHandle | HeicAction::ReleaseImage | HeicAction::FreeContext => e
            is Released,
        HeicAction::ReadPlane => e is Plane,
        HeicAction::CopyPlane => e is Copied && plane_bytes(s) <= e->Copied_0@.len(),
        HeicAction::Finish => false,
    }
}

/// What follows from the outcome `e` of the action of `s`.
pub open spec fn stepped(s: HeicState, e: HeicEvent) -> HeicState {
    match (s.action, e) {
        (HeicAction::FindAlloc, HeicEvent::Found(missing)) => match missing {
            Some(m) => failed(s, HeicAction::Finish, m@),
            None => going_on(s, HeicAction::AllocContext),
        },
        (HeicAction::AllocContext, HeicEvent::Allocated(context)) => if context {
            HeicState { has_context: true, ..going_on(s, HeicAction::FindFree) }
        } else {
            failed(s, HeicAction::Finish, "HEIC: heif_context_alloc failed"@)
        },
        (HeicAction::FindFree, HeicEvent::Found(missing)) => match missing {
            Some(m) => failed(s, HeicAction::Finish, m@),
            None => HeicState { can_free: true, ..going_on(s, HeicAction::FindDecoder) },
        },
        (HeicAction::FindDecoder, HeicEvent::Found(missing)) => match missing {
            Some(m) => failed(s, HeicAction::FreeContext, "HEIC: "@ + m@),
            None => going_on(s, HeicAction::ReadFile),
        },
        (HeicAction::ReadFile, HeicEvent::Called { code, message, object }) => if code != 0 {
            failed(
                s,
                HeicAction::FreeContext,
                "HEIC open: "@ + error_text(code, crate::geocode::optional_view(message)),
            )
        } else {
            going_on(s, HeicAction::GetPrimary)
        },
        (HeicAction::GetPrimary, HeicEvent::Called { code, message, object }) => if code != 0
            || !object {
            failed(
                s,
                HeicAction::FreeContext,
                "HEIC handle: "@ + error_text(code, crate::geocode::optional_view(message)),
            )
        } else {
            HeicState { has_handle: true, ..going_on(s, HeicAction::DecodeImage) }
        },
        (HeicAction::DecodeImage, HeicEvent::Called { code, message, object }) => if code != 0
            || !object {
            failed(
                s,
                HeicAction::ReleaseHandle,
                "HEIC decode: "@ + error_text(code, crate::geocode::optional_view(message)),
            )
        } else {
            HeicState { has_image: true, ..going_on(s, HeicAction::ReleaseHandle) }
        },
        (HeicAction::ReleaseHandle, HeicEvent::Released) => HeicState {
            has_handle: false,
            ..going_on(
                s,
                if s.failure is Some {
                    HeicAction::FreeContext
                } else {
                    HeicAction::ReadPlane
                },
            )
        },
        (HeicAction::ReadPlane, HeicEvent::Plane { present, width, height, stride }) => if !present
            || width <= 0 || height <= 0 || stride <= 0 {
            failed(s, HeicAction::ReleaseImage, "HEIC: no interleaved RGB plane"@)
        } else {
            HeicState {
                width: width as u32,
                height: height as u32,
                stride: stride as u32,
                ..going_on(s, HeicAction::CopyPlane)
            }
        },
        (HeicAction::CopyPlane, HeicEvent::Copied(plane)) => HeicState {
            pixels: packed(plane@, s.stride as int, s.width * 3, s.height as int),
            ..going_on(s, HeicAction::ReleaseImage)
        },
        (HeicAction::ReleaseImage, HeicEvent::Released) => HeicState {
            has_image: false,
            ..going_on(s, HeicAction::FreeContext)
        },
        (HeicAction::FreeContext, HeicEvent::Released) => HeicState {
            has_context: false,
            ..going_on(s, HeicAction::Finish)
        },
        _ => s,
    }
}

/// What comes of decoding a file: the image, or why there is none.
pub open spec fn outcome_of(s: HeicState) -> Result<crate::picture::Raster, Seq<char>> {
    match s.failure {
        Some(failure) => Err(failure),
        None => Ok(crate::picture::rgb_raster(s.width as nat, s.height as nat, s.pixels)),
    }
}

/// The image of a file that was decoded has all its pixels.
pub open spec fn complete(s: HeicState) -> bool {
    s.failure is None ==> s.height > 0 && s.pixels.len() == s.width * s.height * 3
}

/// What is held fits the action: nothing is used before it is there, and in the
/// end everything is released that can be.
pub open spec fn consistent(s: HeicState) -> bool {
    let past_free = s.can_free && s.has_context;
    match s.action {
        HeicAction::FindAlloc | HeicAction::AllocContext => !s.has_context && !s.can_free
            && !s.has_handle && !s.has_image && s.failure is None,
        HeicAction::FindFree => s.has_context && !s.can_free && !s.has_handle && !s.has_image
            && s.failure is None,
        HeicAction::FindDecoder | HeicAction::ReadFile | HeicAction::GetPrimary => past_free
            && !s.has_handle && !s.has_image && s.failure is None,
        HeicAction::DecodeImage => past_free && s.has_handle && !s.has_image && s.failure is None,
        HeicAction::ReleaseHandle => past_free && s.has_handle && (s.has_image <==> s.failure
            is None),
        HeicAction::ReadPlane => past_free && !s.has_handle && s.has_image && s.failure is None,
        HeicAction::CopyPlane => past_free && !s.has_handle && s.has_image && s.failure is None
            && s.width > 0 && s.height > 0 && s.stride > 0,
        HeicAction::ReleaseImage => past_free && !s.has_handle && s.has_image && complete(s),
        HeicAction::FreeContext => past_free && !s.has_handle && !s.has_image && complete(s),
        HeicAction::Finish => !s.has_handle && !s.has_image && (s.has_context ==> !s.can_free)
            && complete(s),
    }
}

/// Every step keeps what is held consistent; so in the end no handle and no
/// image is held, nor a context that could be freed, and the image of a file
/// that was decoded has all its pixels.
pub proof fn law_nothing_is_leaked(s: HeicState, e: HeicEvent)
    requires
        consistent(s),
        answers(s, e),
    ensures
        consistent(beginning()),
        consistent(stepped(s, e)),
{
    if s.action is CopyPlane {
        let plane = e->Copied_0@;
        assert(s.height * (s.width * 3) == s.width * s.height * 3) by (nonlinear_arith);
        assert(packed(plane, s.stride as int, s.width * 3, s.height as int).len() == s.width
            * s.height * 3);
    }
}

/// Begins with a file: whether libheif was found, and the path of the file
/// where it is text.
pub fn open_heic(library: bool, path: Option<&str>) -> (d: HeicDecode)
    ensures
        d@ == match early_failure(
            library,
            match path {
                Some(p) => Some(p@),
                None => None,
            },
        ) {
            Some(failure) => failed(beginning(), HeicAction::Finish, failure),
            None => beginning(),
        },
        consistent(d@),
{
    let failure: Option<String> = if !library {
        Some(
            "HEIC: system libheif not available at runtime (dlopen failed); install libheif to enable HEIC/HEIF".to_owned(),
        )
    } else {
        match path {
            None => Some("HEIC: non-UTF-8 path".to_owned()),
            Some(p) => if has_nul(p) {
                Some("HEIC: path contains NUL byte".to_owned())
            } else {
                None
            },
        }
    };
    HeicDecode {
        action: if failure.is_some() {
            HeicAction::Finish
        } else {
            HeicAction::FindAlloc
        },
        failure,
        width: 0,
        height: 0,
        stride: 0,
        pixels: Vec::new(),
        has_context: false,
        can_free: false,
        has_handle: false,
        has_image: false,
    }
}

impl HeicDecode {
    fn fail(&mut self, action: HeicAction, failure: String)
        ensures
            final(self)@ == failed(old(self)@, action, failure@),
    {
        self.action = action;
        self.failure = Some(failure);
    }

    /// Takes the outcome of the action and goes on to the next.
    pub fn step(&mut self, event: HeicEvent)
        requires
            consistent(old(self)@),
            answers(old(self)@, event),
        ensures
            final(self)@ == stepped(old(self)@, event),
            consistent(final(self)@),
    {
        proof {
            law_nothing_is_leaked(self@, event);
        }
        let ghost before = self@;
        match event {
            HeicEvent::Found(missing) => match self.action {
                HeicAction::FindAlloc => match missing {
                    Some(m) => self.fail(HeicAction::Finish, m),
                    None => {
                        self.action = HeicAction::AllocContext;
                    },
                },
                HeicAction::FindFree => match missing {
                    Some(m) => self.fail(HeicAction::Finish, m),
                    None => {
                        self.can_free = true;
                        self.action = HeicAction::FindDecoder;
                    },
                },
                _ => match missing {
                    Some(m) => self.fail(HeicAction::FreeContext, joined("HEIC: ", &m)),
                    None => {
                        self.action = HeicAction::ReadFile;
                    },
                },
            },
            HeicEvent::Allocated(context) => if context {
                self.has_context = true;
                self.action = HeicAction::FindFree;
            } else {
                self.fail(HeicAction::Finish, "HEIC: heif_context_alloc failed".to_owned());
            },
            HeicEvent::Called { code, message, object } => match self.action {
                HeicAction::ReadFile => if code != 0 {
                    let text = err_text(code, &message);
                    self.fail(HeicAction::FreeContext, joined("HEIC open: ", &text));
                } else {
                    self.action = HeicAction::GetPrimary;
                },
                HeicAction::GetPrimary => if code != 0 || !object {
                    let text = err_text(code, &message);
                    self.fail(HeicAction::FreeContext, joined("HEIC handle: ", &text));
                } else {
                    self.has_handle = true;
                    self.action = HeicAction::DecodeImage;
                },
                _ => if code != 0 || !object {
                    let text = err_text(code, &message);
                    self.fail(HeicAction::ReleaseHandle, joined("HEIC decode: ", &text));
                } else {
                    self.has_image = true;
                    self.action = HeicAction::ReleaseHandle;
                },
            },
            HeicEvent::Released => match self.action {
                HeicAction::ReleaseHandle => {
                    self.has_handle = false;
                    self.action = if self.failure.is_some() {
                        HeicAction::FreeContext
                    } else {
                        HeicAction::ReadPlane
                    };
                },
                HeicAction::ReleaseImage => {
                    self.has_image = false;
                    self.action = HeicAction::FreeContext;
                },
                _ => {
                    self.has_context = false;
                    self.action = HeicAction::Finish;
                },
            },
            HeicEvent::Plane { present, width, height, stride } => if !present || width <= 0
                || height <= 0 || stride <= 0 {
                self.fail(HeicAction::ReleaseImage, "HEIC: no interleaved RGB plane".to_owned());
            } else {
                self.width = width as u32;
                self.height = height as u32;
                self.stride = stride as u32;
                self.action = HeicAction::CopyPlane;
            },
            HeicEvent::Copied(plane) => {
                let n = plane.len();
                proof {
                    assert(0 <= (before.height - 1) * before.stride) by (nonlinear_arith)
                        requires
                            before.height >= 1,
                            before.stride >= 0,
                    ;
                }
                let row = self.width as usize * 3;
                self.pixels = pack_rows(
                    &plane,
                    self.stride as usize,
                    row,
                    self.height as usize,
                );
                self.action = HeicAction::ReleaseImage;
            },
        }
    }

    /// The call that comes next.
    pub fn action(&self) -> (a: HeicAction)
        ensures
            a == self@.action,
    {
        self.action
    }

    /// Whether nothing is held.
    pub fn holds_nothing(&self) -> (r: bool)
        ensures
            r == (!self@.has_context && !self@.has_handle && !self@.has_image),
    {
        !self.has_context && !self.has_handle && !self.has_image
    }

    /// The bytes from the start of the plane to the end of its last row, or
    /// `None` where they are more than can be counted.
    pub fn plane_len(&self) -> (n: Option<usize>)
        requires
            consistent(self@),
            self@.action is CopyPlane,
        ensures
            match n {
                Some(n) => n == plane_bytes(self@),
                None => plane_bytes(self@) > usize::MAX,
            },
    {
        let (w, h, stride) = (self.width as u128, self.height as u128, self.stride as u128);
        proof {
            assert((h - 1) * stride <= u32::MAX * u32::MAX) by (nonlinear_arith)
                requires
                    1 <= h <= u32::MAX,
                    0 <= stride <= u32::MAX,
            ;
            assert(0 <= (h - 1) * stride) by (nonlinear_arith)
                requires
                    1 <= h,
                    0 <= stride,
            ;
        }
        let n: u128 = (h - 1) * stride + w * 3;
        if n <= usize::MAX as u128 {
            Some(n as usize)
        } else {
            None
        }
    }

    /// The image of a file, once there is nothing left to do, or why there is
    /// none.
    pub fn result(self) -> (r: Result<image::DynamicImage, String>)
        requires
            consistent(self@),
            self@.action is Finish,
        ensures
            match self@.failure {
                Some(failure) => r is Err && r->Err_0@ == failure,
                None => r is Ok && crate::picture::raster(r->Ok_0) == crate::picture::rgb_raster(
                    self@.width as nat,
                    self@.height as nat,
                    self@.pixels,
                ),
            },
            crate::picture::decoded_view(r) == outcome_of(self@),
    {
        match self.failure {
            Some(failure) => Err(failure),
            None => {
                let ghost n = self.pixels.len();
                proof {
                    let (w, h) = (self@.width, self@.height);
                    assert(w * 3 <= w * h * 3) by (nonlinear_arith)
                        requires
                            h >= 1,
                            w >= 0,
                    ;
                    assert(n <= usize::MAX);
                }
                rgb_image(
                    self.width,
                    self.height,
                    self.pixels,
                    "HEIC decode: pixel buffer/size mismatch",
                )
            },
        }
    }
}

fn has_nul(s: &str) -> (r: bool)
    ensures
        r == s@.contains('\0'),
{
    let v = chars_of(s);
    for i in 0..v.len()
        invariant
            v@ == s@,
            forall|k: int| 0 <= k < i ==> #[trigger] v@[k] != '\0',
    {
        if v[i] == '\0' {
            return true;
        }
    }
    false
}

/// The pixels of a decoded image are those of the plane, row by row, without what
/// fills up its rows.
pub proof fn law_rows_are_packed(
    plane: Seq<u8>,
    stride: int,
    row: int,
    rows: int,
    x: int,
    y: int,
)
    requires
        0 <= x < row,
        0 <= y < rows,
    ensures
        packed(plane, stride, row, rows).len() == rows * row,
        0 <= y * row + x < rows * row,
        packed(plane, stride, row, rows)[y * row + x] == plane[y * stride + x],
{
    crate::picture::lemma_grid_position(row, rows, x, y);
    assert(row * rows == rows * row) by (nonlinear_arith);
    assert(0 <= rows * row) by (nonlinear_arith)
        requires
            rows > 0,
            row > 0,
    ;
}

/// A file that libheif reads and decodes without an error gives an image of the
/// size of the plane, with the pixels of the plane; on the way all calls are made
/// in their order, and in the end nothing is held.
pub proof fn law_decoded_file_gives_its_pixels(
    width: i32,
    height: i32,
    stride: i32,
    plane: Vec<u8>,
    message: Option<String>,
    object: bool,
    x: int,
    y: int,
)
    requires
        width > 0,
        height > 0,
        stride > 0,
        0 <= x < 3 * width,
        0 <= y < height,
    ensures
        ({
            let ok = HeicEvent::Called { code: 0, message, object: true };
            let a = stepped(beginning(), HeicEvent::Found(None));
            let b = stepped(a, HeicEvent::Allocated(true));
            let c = stepped(b, HeicEvent::Found(None));
            let d = stepped(c, HeicEvent::Found(None));
            let e = stepped(d, HeicEvent::Called { code: 0, message, object });
            let f = stepped(e, ok);
            let g = stepped(f, ok);
            let h = stepped(g, HeicEvent::Released);
            let i = stepped(h, HeicEvent::Plane { present: true, width, height, stride });
            let j = stepped(i, HeicEvent::Copied(plane));
            let k = stepped(j, HeicEvent::Released);
            let end = stepped(k, HeicEvent::Released);
            &&& beginning().action == HeicAction::FindAlloc
            &&& a.action == HeicAction::AllocContext
            &&& b.action == HeicAction::FindFree
            &&& c.action == HeicAction::FindDecoder
            &&& d.action == HeicAction::ReadFile
            &&& e.action == HeicAction::GetPrimary
            &&& f.action == HeicAction::DecodeImage
            &&& g.action == HeicAction::ReleaseHandle
            &&& h.action == HeicAction::ReadPlane
            &&& i.action == HeicAction::CopyPlane
            &&& j.action == HeicAction::ReleaseImage
            &&& k.action == HeicAction::FreeContext
            &&& end.action == HeicAction::Finish
            &&& end.failure is None
            &&& end.width == width && end.height == height
            &&& end.pixels.len() == 3 * width * height
            &&& end.pixels[y * (3 * width) + x] == plane@[y * stride + x]
            &&& !end.has_context && !end.has_handle && !end.has_image
        }),
{
    law_rows_are_packed(plane@, stride as int, width * 3, height as int, x, y);
    assert(height * (width * 3) == 3 * width * height) by (nonlinear_arith);
}

/// A call of libheif that fails, by its code or because it gives no object, ends
/// the decoding with its message behind the words for the call; a failure that is
/// known stays as it is while what is held is released.
pub proof fn law_failed_call_is_told(s: HeicState, code: i32, message: String, object: bool)
    requires
        code != 0 || !object && s.action != HeicAction::ReadFile,
        s.failure is None,
    ensures
        ({
            let after = stepped(s, HeicEvent::Called { code, message: Some(message), object });
            &&& s.action == HeicAction::ReadFile ==> after.failure == Some(
                "HEIC open: "@ + message@,
            ) && after.action == HeicAction::FreeContext
            &&& s.action == HeicAction::GetPrimary ==> after.failure == Some(
                "HEIC handle: "@ + message@,
            ) && after.action == HeicAction::FreeContext
            &&& s.action == HeicAction::DecodeImage ==> after.failure == Some(
                "HEIC decode: "@ + message@,
            ) && after.action == HeicAction::ReleaseHandle
        }),
        forall|t: HeicState|
            t.action == HeicAction::ReleaseHandle || t.action == HeicAction::ReleaseImage
                || t.action == HeicAction::FreeContext ==> (#[trigger] stepped(
                t,
                HeicEvent::Released,
            )).failure == t.failure,
{
}

/// A plane is taken exactly where it is there and has width, height and rows.
pub proof fn law_plane_needs_a_size(
    s: HeicState,
    present: bool,
    width: i32,
    height: i32,
    stride: i32,
)
    requires
        s.action == HeicAction::ReadPlane,
        s.failure is None,
    ensures
        ({
            let after = stepped(s, HeicEvent::Plane { present, width, height, stride });
            &&& after.failure is None <==> present && width > 0 && height > 0 && stride > 0
            &&& after.failure is None ==> after.action == HeicAction::CopyPlane && after.width
                == width && after.height == height && after.stride == stride
            &&& after.failure is Some ==> after.action == HeicAction::ReleaseImage
        }),
{
}

/// A code is shown as the signed number that it is, where libheif gives no message.
pub proof fn law_error_codes_read_back(code: i32)
    ensures
        ({
            let text = error_text(code, None);
            let n = "libheif error code "@.len() as int;
            &&& text.take(n) == "libheif error code "@
            &&& code >= 0 ==> crate::number::number(text.skip(n), i32::MAX as nat) == Some(
                code as nat,
            )
            &&& code < 0 ==> text[n] == '-' && crate::number::number(
                text.skip(n + 1),
                0x8000_0000,
            ) == Some((-code) as nat)
        }),
{
    let text = error_text(code, None);
    let n = "libheif error code "@.len() as int;
    assert(text.take(n) =~= "libheif error code "@);
    if code >= 0 {
        crate::number::law_written_number_reads_back(code as nat, 0, i32::MAX as nat);
        assert(text.skip(n) =~= crate::number::digits(code as nat));
    } else {
        crate::number::law_written_number_reads_back((-code) as nat, 0, 0x8000_0000);
        assert(text.skip(n + 1) =~= crate::number::digits((-code) as nat));
    }
}

/// A file is decoded only where libheif was found and the path is text without a
/// zero character.
pub proof fn law_decoding_needs_library_and_path(library: bool, path: Seq<char>)
    ensures
        early_failure(library, Some(path)) is None <==> library && !path.contains('\0'),
        early_failure(library, None) is Some,
{
}

/// A function that is not found, or a context that cannot be made, ends the
/// decoding, with the reason; a context that is held is freed where it can be.
pub proof fn law_missing_function_is_told(s: HeicState, missing: String)
    ensures
        ({
            let after = stepped(s, HeicEvent::Found(Some(missing)));
            &&& s.action == HeicAction::FindAlloc || s.action == HeicAction::FindFree
                ==> after.failure == Some(missing@) && after.action == HeicAction::Finish
            &&& s.action == HeicAction::FindDecoder ==> after.failure == Some("HEIC: "@ + missing@)
                && after.action == HeicAction::FreeContext
        }),
        s.action == HeicAction::AllocContext ==> stepped(
            s,
            HeicEvent::Allocated(false),
        ).failure is Some && stepped(s, HeicEvent::Allocated(false)).action == HeicAction::Finish
            && stepped(s, HeicEvent::Allocated(false)).has_context == s.has_context,
{
}

/// A file that failed gives its reason and no image; another one gives an image of
/// its size, in which each pixel has its three bytes.
pub proof fn law_image_has_the_pixels(s: HeicState, x: int, y: int, colour: int)
    requires
        0 <= x < s.width,
        0 <= y < s.height,
        0 <= colour < 3,
        s.failure is None ==> s.pixels.len() == s.width * s.height * 3,
    ensures
        s.failure matches Some(failure) ==> outcome_of(s) == Err::<
            crate::picture::Raster,
            Seq<char>,
        >(failure),
        s.failure is None ==> outcome_of(s) is Ok && outcome_of(s)->Ok_0.width == s.width
            && outcome_of(s)->Ok_0.height() == s.height && outcome_of(s)->Ok_0.pixel(x, y)[colour]
            == s.pixels[3 * (y * s.width + x) + colour],
{
    if s.failure is None {
        crate::picture::law_bytes_become_pixels(
            s.width as nat,
            s.height as nat,
            s.pixels,
            x,
            y,
            colour,
        );
    }
}

/// What is copied of a plane goes up to the last byte of its last row and no
/// further.
pub proof fn law_plane_ends_with_its_last_row(s: HeicState, x: int, y: int)
    requires
        s.height > 0,
        s.width > 0,
        0 <= x < 3 * s.width,
        0 <= y < s.height,
    ensures
        y * s.stride + x < plane_bytes(s),
        x == 3 * s.width - 1 && y == s.height - 1 ==> y * s.stride + x == plane_bytes(s) - 1,
{
    assert(y * s.stride <= (s.height - 1) * s.stride) by (nonlinear_arith)
        requires
            y <= s.height - 1,
            s.stride >= 0,
    ;
}

} // verus!
