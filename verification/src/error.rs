//! The single error surface for every user-triggerable path. The command line
//! maps these to a message and a stable exit code; the library returns them
//! instead of panicking on bad input or missing resources.
use vstd::prelude::*;
use vstd::std_specs::convert::IntoSpec;

verus! {

#[derive(Debug)]
pub enum RtorchError {
    /// The formula/GLSL/kernel source failed to compile.
    CompileError(String),
    /// A DLL or symbol failed to load/resolve.
    LoadError(String),
    /// A Vulkan call returned a non-success result.
    VulkanError(String),
    /// A compute kernel could not be found/loaded/run.
    KernelError(String),
    /// A tensor operation was given invalid dimensions/shapes.
    TensorError(String),
    /// Shape/strides are inconsistent.
    ShapeError(String),
    /// An unsupported or mismatched dtype was requested.
    DTypeError(String),
    /// A model-level error.
    ModelError(String),
    /// A `.rtw` container encode/decode failure.
    RTWError(String),
    /// The `.rtw` whitelist could not be read or parsed.
    WhitelistError(String),
    /// General CLI/runtime error (missing file, bad args, etc.).
    Io(String),
}

/// `s` is what converting `m` into a `String` gives.
pub open spec fn into_string<M: Into<String>>(m: M, s: String) -> bool {
    call_ensures(M::into, (m,), s)
}

/// A `&str` message is kept as its characters: what converting it into a
/// `String` gives holds the same text.
pub proof fn lemma_str_message(m: &str, s: String)
    requires
        into_string(m, s),
    ensures
        s@ == m@,
{
}

/// A `String` message is kept as it is.
pub proof fn lemma_string_message(m: String, s: String)
    requires
        into_string(m, s),
    ensures
        s == m,
{
}

/// `From<T> for T`, std's reflexive conversion: it returns its argument
/// unchanged (so a `String` message is kept as it is).
pub assume_specification<T>[ <T as From<T>>::from ](t: T) -> (res: T)
    ensures
        res == t,
;

impl RtorchError {
    pub fn compile<M: Into<String>>(m: M) -> (res: Self)
        ensures
            res is CompileError,
            M::obeys_into_spec() ==> res == RtorchError::CompileError(m.into_spec()),
            into_string(m, res->CompileError_0),
    {
        RtorchError::CompileError(m.into())
    }

    pub fn load<M: Into<String>>(m: M) -> (res: Self)
        ensures
            res is LoadError,
            M::obeys_into_spec() ==> res == RtorchError::LoadError(m.into_spec()),
            into_string(m, res->LoadError_0),
    {
        RtorchError::LoadError(m.into())
    }

    pub fn vulkan<M: Into<String>>(m: M) -> (res: Self)
        ensures
            res is VulkanError,
            M::obeys_into_spec() ==> res == RtorchError::VulkanError(m.into_spec()),
            into_string(m, res->VulkanError_0),
    {
        RtorchError::VulkanError(m.into())
    }

    pub fn kernel<M: Into<String>>(m: M) -> (res: Self)
        ensures
            res is KernelError,
            M::obeys_into_spec() ==> res == RtorchError::KernelError(m.into_spec()),
            into_string(m, res->KernelError_0),
    {
        RtorchError::KernelError(m.into())
    }

    pub fn tensor<M: Into<String>>(m: M) -> (res: Self)
        ensures
            res is TensorError,
            M::obeys_into_spec() ==> res == RtorchError::TensorError(m.into_spec()),
            into_string(m, res->TensorError_0),
    {
        RtorchError::TensorError(m.into())
    }

    pub fn shape<M: Into<String>>(m: M) -> (res: Self)
        ensures
            res is ShapeError,
            M::obeys_into_spec() ==> res == RtorchError::ShapeError(m.into_spec()),
            into_string(m, res->ShapeError_0),
    {
        RtorchError::ShapeError(m.into())
    }

    pub fn dtype<M: Into<String>>(m: M) -> (res: Self)
        ensures
            res is DTypeError,
            M::obeys_into_spec() ==> res == RtorchError::DTypeError(m.into_spec()),
            into_string(m, res->DTypeError_0),
    {
        RtorchError::DTypeError(m.into())
    }

    pub fn model<M: Into<String>>(m: M) -> (res: Self)
        ensures
            res is ModelError,
            M::obeys_into_spec() ==> res == RtorchError::ModelError(m.into_spec()),
            into_string(m, res->ModelError_0),
    {
        RtorchError::ModelError(m.into())
    }

    pub fn rtw<M: Into<String>>(m: M) -> (res: Self)
        ensures
            res is RTWError,
            M::obeys_into_spec() ==> res == RtorchError::RTWError(m.into_spec()),
            into_string(m, res->RTWError_0),
    {
        RtorchError::RTWError(m.into())
    }

    pub fn whitelist<M: Into<String>>(m: M) -> (res: Self)
        ensures
            res is WhitelistError,
            M::obeys_into_spec() ==> res == RtorchError::WhitelistError(m.into_spec()),
            into_string(m, res->WhitelistError_0),
    {
        RtorchError::WhitelistError(m.into())
    }

    pub fn io<M: Into<String>>(m: M) -> (res: Self)
        ensures
            res is Io,
            M::obeys_into_spec() ==> res == RtorchError::Io(m.into_spec()),
            into_string(m, res->Io_0),
    {
        RtorchError::Io(m.into())
    }

    /// Stable exit code for a command-line run: every library error is a
    /// runtime error (1); usage errors (2) are decided before any of these.
    pub fn exit_code(&self) -> (res: i32)
        ensures
            res == 1,
    {
        match self {
            RtorchError::CompileError(_)
            | RtorchError::LoadError(_)
            | RtorchError::VulkanError(_)
            | RtorchError::KernelError(_)
            | RtorchError::TensorError(_)
            | RtorchError::ShapeError(_)
            | RtorchError::DTypeError(_)
            | RtorchError::ModelError(_)
            | RtorchError::RTWError(_)
            | RtorchError::WhitelistError(_)
            | RtorchError::Io(_) => 1,
        }
    }

    /// The short tag a message is prefixed with (`"<tag>: <message>"`).
    pub fn tag(&self) -> (res: &'static str)
        ensures
            res@ == spec_tag(*self),
    {
        match self {
            RtorchError::CompileError(_) => "compile",
            RtorchError::LoadError(_) => "load",
            RtorchError::VulkanError(_) => "vulkan",
            RtorchError::KernelError(_) => "kernel",
            RtorchError::TensorError(_) => "tensor",
            RtorchError::ShapeError(_) => "shape",
            RtorchError::DTypeError(_) => "dtype",
            RtorchError::ModelError(_) => "model",
            RtorchError::RTWError(_) => "rtw",
            RtorchError::WhitelistError(_) => "whitelist",
            RtorchError::Io(_) => "io",
        }
    }

    /// The message the error carries.
    pub fn message(&self) -> (res: &String)
        ensures
            *res == spec_message(*self),
    {
        match self {
            RtorchError::CompileError(m) => m,
            RtorchError::LoadError(m) => m,
            RtorchError::VulkanError(m) => m,
            RtorchError::KernelError(m) => m,
            RtorchError::TensorError(m) => m,
            RtorchError::ShapeError(m) => m,
            RtorchError::DTypeError(m) => m,
            RtorchError::ModelError(m) => m,
            RtorchError::RTWError(m) => m,
            RtorchError::WhitelistError(m) => m,
            RtorchError::Io(m) => m,
        }
    }
}

pub open spec fn spec_tag(e: RtorchError) -> Seq<char> {
    match e {
        RtorchError::CompileError(_) => "compile"@,
        RtorchError::LoadError(_) => "load"@,
        RtorchError::VulkanError(_) => "vulkan"@,
        RtorchError::KernelError(_) => "kernel"@,
        RtorchError::TensorError(_) => "tensor"@,
        RtorchError::ShapeError(_) => "shape"@,
        RtorchError::DTypeError(_) => "dtype"@,
        RtorchError::ModelError(_) => "model"@,
        RtorchError::RTWError(_) => "rtw"@,
        RtorchError::WhitelistError(_) => "whitelist"@,
        RtorchError::Io(_) => "io"@,
    }
}

pub open spec fn spec_message(e: RtorchError) -> String {
    match e {
        RtorchError::CompileError(m) => m,
        RtorchError::LoadError(m) => m,
        RtorchError::VulkanError(m) => m,
        RtorchError::KernelError(m) => m,
        RtorchError::TensorError(m) => m,
        RtorchError::ShapeError(m) => m,
        RtorchError::DTypeError(m) => m,
        RtorchError::ModelError(m) => m,
        RtorchError::RTWError(m) => m,
        RtorchError::WhitelistError(m) => m,
        RtorchError::Io(m) => m,
    }
}

} // verus!
