//! Geometry of a file-backed device: how many region files, how large, and
//! the alignment every read and write must honour.

use vstd::prelude::*;

use crate::bits::{align_down, align_down_spec, is_aligned, is_pow2, is_pow2_spec};

verus! {

pub const DEFAULT_ALIGN: usize = 4096;

pub const DEFAULT_IO_SIZE: usize = 16384;

pub const DEFAULT_FILE_SIZE: usize = 67108864;

/// Optional settings from which an [`FsDeviceConfig`] is derived.
#[derive(Debug, Clone)]
pub struct FsDeviceConfigBuilder {
    pub dir: String,
    pub capacity: Option<usize>,
    pub file_size: Option<usize>,
    pub align: Option<usize>,
    pub io_size: Option<usize>,
}

/// A complete device geometry.
#[derive(Debug, Clone)]
pub struct FsDeviceConfig {
    /// Directory that holds the region files.
    pub dir: String,
    /// Total bytes over all region files; a multiple of `file_size`.
    pub capacity: usize,
    /// Bytes in one region file; a multiple of `align`.
    pub file_size: usize,
    /// Block alignment of every I/O; a power of two.
    pub align: usize,
    /// Preferred size of one write.
    pub io_size: usize,
}

pub open spec fn unwrap_or_spec(o: Option<usize>, d: usize) -> usize {
    match o {
        Some(v) => v,
        None => d,
    }
}

pub open spec fn clamp_spec(v: usize, lo: usize, hi: usize) -> usize {
    if v < lo {
        lo
    } else if v > hi {
        hi
    } else {
        v
    }
}

impl FsDeviceConfigBuilder {
    /// The alignment that `build` will use.
    pub open spec fn align_of(&self) -> usize {
        unwrap_or_spec(self.align, DEFAULT_ALIGN)
    }

    /// The capacity before it is rounded to whole files: the given one, or
    /// four fifths of the free space.
    pub open spec fn raw_capacity_of(&self, free_space: usize) -> usize {
        unwrap_or_spec(self.capacity, ((free_space / 10) * 8) as usize)
    }

    /// The capacity rounded down to the alignment.
    pub open spec fn aligned_capacity_of(&self, free_space: usize) -> nat {
        align_down_spec(self.align_of() as nat, self.raw_capacity_of(free_space) as nat)
    }

    /// What `build` needs so that clamping the file size is well defined.
    pub open spec fn buildable(&self, free_space: usize) -> bool {
        self.align_of() > 0 && self.aligned_capacity_of(free_space) >= self.align_of()
    }

    pub open spec fn file_size_of(&self, free_space: usize) -> nat {
        align_down_spec(
            self.align_of() as nat,
            clamp_spec(
                unwrap_or_spec(self.file_size, DEFAULT_FILE_SIZE),
                self.align_of(),
                self.aligned_capacity_of(free_space) as usize,
            ) as nat,
        )
    }

    pub open spec fn capacity_of(&self, free_space: usize) -> nat {
        align_down_spec(self.file_size_of(free_space), self.aligned_capacity_of(free_space))
    }

    pub open spec fn io_size_of(&self) -> nat {
        let io = unwrap_or_spec(self.io_size, DEFAULT_IO_SIZE);
        let io = if io < self.align_of() { self.align_of() } else { io };
        align_down_spec(self.align_of() as nat, io as nat)
    }

    /// A builder for `dir` with every setting left to its default.
    pub fn new(dir: String) -> (r: Self)
        ensures
            r.dir == dir,
            r.capacity is None,
            r.file_size is None,
            r.align is None,
            r.io_size is None,
    {
        FsDeviceConfigBuilder { dir, capacity: None, file_size: None, align: None, io_size: None }
    }

    pub fn with_capacity(self, capacity: usize) -> (r: Self)
        ensures
            r == (FsDeviceConfigBuilder { capacity: Some(capacity), ..self }),
    {
        let mut s = self;
        s.capacity = Some(capacity);
        s
    }

    pub fn with_file_size(self, file_size: usize) -> (r: Self)
        ensures
            r == (FsDeviceConfigBuilder { file_size: Some(file_size), ..self }),
    {
        let mut s = self;
        s.file_size = Some(file_size);
        s
    }

    pub fn with_align(self, align: usize) -> (r: Self)
        ensures
            r == (FsDeviceConfigBuilder { align: Some(align), ..self }),
    {
        let mut s = self;
        s.align = Some(align);
        s
    }

    pub fn with_io_size(self, io_size: usize) -> (r: Self)
        ensures
            r == (FsDeviceConfigBuilder { io_size: Some(io_size), ..self }),
    {
        let mut s = self;
        s.io_size = Some(io_size);
        s
    }

    /// Derives the geometry. `free_space` is the free space of the file
    /// system that holds `dir`; it is read only when no capacity was given.
    pub fn build(self, free_space: usize) -> (r: FsDeviceConfig)
        requires
            self.buildable(free_space),
        ensures
            r.dir == self.dir,
            r.align == self.align_of(),
            r.file_size == self.file_size_of(free_space),
            r.capacity == self.capacity_of(free_space),
            r.io_size == self.io_size_of(),
            r.file_size > 0,
            r.file_size % r.align == 0,
            r.capacity % r.file_size == 0,
            r.io_size % r.align == 0,
            r.io_size > 0,
            is_pow2_spec(r.align) ==> r.spec_valid(),
    {
        let align = match self.align {
            Some(a) => a,
            None => DEFAULT_ALIGN,
        };
        let capacity = match self.capacity {
            Some(c) => c,
            None => free_space / 10 * 8,
        };
        let capacity = align_down(align, capacity);
        let file_size = match self.file_size {
            Some(f) => f,
            None => DEFAULT_FILE_SIZE,
        };
        let file_size = if file_size < align {
            align
        } else if file_size > capacity {
            capacity
        } else {
            file_size
        };
        let file_size = align_down(align, file_size);
        let capacity = align_down(file_size, capacity);
        let io_size = match self.io_size {
            Some(i) => i,
            None => DEFAULT_IO_SIZE,
        };
        let io_size = if io_size < align { align } else { io_size };
        let io_size = align_down(align, io_size);
        FsDeviceConfig { dir: self.dir, capacity, file_size, align, io_size }
    }
}

impl FsDeviceConfig {
    /// The geometry is usable: a power-of-two alignment, files made of whole
    /// blocks and a capacity made of whole files.
    pub open spec fn spec_valid(&self) -> bool {
        &&& is_pow2_spec(self.align)
        &&& self.file_size > 0
        &&& self.file_size % self.align == 0
        &&& self.capacity % self.file_size == 0
    }

    /// Whether the geometry is usable; see [`FsDeviceConfig::spec_valid`].
    pub fn validate(&self) -> (r: bool)
        ensures
            r == self.spec_valid(),
    {
        is_pow2(self.align) && self.file_size > 0 && is_aligned(self.align, self.file_size)
            && self.capacity % self.file_size == 0
    }

    /// The number of region files.
    pub fn regions(&self) -> (r: usize)
        requires
            self.file_size > 0,
        ensures
            r == self.capacity / self.file_size,
    {
        self.capacity / self.file_size
    }
}

} // verus!
