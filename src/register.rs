use vstd::prelude::*;

verus! {

/// Number of per-opcode descriptors that a probe buffer has room for.
pub const PROBE_OPS: usize = 256;

/// Bytes of the probe header that precedes the descriptor array.
pub const PROBE_HEADER_SIZE: usize = 16;

/// Bytes of one per-opcode descriptor.
pub const PROBE_OP_SIZE: usize = 8;

/// Bytes of a whole probe buffer: the header and `PROBE_OPS` descriptors.
pub const PROBE_SIZE: usize = PROBE_HEADER_SIZE + PROBE_OPS * PROBE_OP_SIZE;

/// Flag bit of a descriptor that marks its operation as supported.
pub const OP_SUPPORTED: u16 = 1;

/// Registration opcode of the probe query.
pub const REGISTER_PROBE: u32 = 8;

/// Registration opcode that installs restrictions on a ring.
pub const REGISTER_RESTRICTIONS: u32 = 11;

/// Registration opcode that starts a ring created disabled.
pub const REGISTER_ENABLE_RINGS: u32 = 12;

/// Offset of the `flags` field of descriptor `op` in a probe buffer.
pub open spec fn op_flags_offset(op: int) -> int {
    PROBE_HEADER_SIZE + PROBE_OP_SIZE * op + 2
}

/// Highest opcode that the kernel reported: the first byte of the header.
pub open spec fn reported_last_op(b: Seq<u8>) -> u8 {
    b[0]
}

/// The `flags` field of descriptor `op`, a native (little-endian) `u16`.
pub open spec fn reported_flags(b: Seq<u8>, op: int) -> u16 {
    (b[op_flags_offset(op)] as u16) | ((b[op_flags_offset(op) + 1] as u16) << 8u16)
}

/// Whether the probe buffer `b` reports operation `op` as supported.
pub open spec fn probe_supports(b: Seq<u8>, op: u8) -> bool {
    op <= reported_last_op(b) && reported_flags(b, op as int) & OP_SUPPORTED != 0
}

/// Above the highest opcode that the kernel reported nothing is supported;
/// at that opcode itself, support is exactly its descriptor's flag bit.
pub proof fn lemma_probe_boundary(b: Seq<u8>, op: u8)
    requires
        b.len() == PROBE_SIZE,
    ensures
        op > reported_last_op(b) ==> !probe_supports(b, op),
        op == reported_last_op(b) ==> (probe_supports(b, op) <==> reported_flags(b, op as int)
            & OP_SUPPORTED != 0),
{
}

/// The answer of a probe query: a header with the highest opcode the kernel
/// knows, followed by one descriptor per opcode.
pub struct Probe {
    bytes: Vec<u8>,
}

impl View for Probe {
    type V = Seq<u8>;

    closed spec fn view(&self) -> Seq<u8> {
        self.bytes@
    }
}

impl Probe {
    #[verifier::type_invariant]
    spec fn inv(self) -> bool {
        self.bytes@.len() == PROBE_SIZE
    }

    /// A zeroed probe buffer, ready to be handed to the probe registration.
    pub fn new() -> (r: Probe)
        ensures
            r@ == Seq::new(PROBE_SIZE as nat, |i: int| 0u8),
    {
        let mut bytes: Vec<u8> = Vec::new();
        let mut i: usize = 0;
        while i < PROBE_SIZE
            invariant
                i <= PROBE_SIZE,
                bytes@ == Seq::new(i as nat, |j: int| 0u8),
            decreases PROBE_SIZE - i,
        {
            bytes.push(0u8);
            i = i + 1;
            assert(bytes@ =~= Seq::new(i as nat, |j: int| 0u8));
        }
        Probe { bytes }
    }

    /// Takes the buffer that the probe registration filled in; `None` unless
    /// it holds exactly `PROBE_SIZE` bytes.
    pub fn from_bytes(bytes: Vec<u8>) -> (r: Option<Probe>)
        ensures
            r.is_some() <==> bytes@.len() == PROBE_SIZE,
            r.is_some() ==> r.unwrap()@ == bytes@,
    {
        if bytes.len() == PROBE_SIZE {
            Some(Probe { bytes })
        } else {
            None
        }
    }

    /// The raw buffer, laid out as the kernel writes it.
    pub fn as_bytes(&self) -> (r: &[u8])
        ensures
            r@ == self@,
            r@.len() == PROBE_SIZE,
    {
        proof {
            use_type_invariant(self);
        }
        self.bytes.as_slice()
    }

    /// Highest opcode that the kernel reported.
    pub fn last_op(&self) -> (r: u8)
        ensures
            r == reported_last_op(self@),
    {
        proof {
            use_type_invariant(self);
        }
        self.bytes[0]
    }

    /// The flags of descriptor `opcode`.
    pub fn op_flags(&self, opcode: u8) -> (r: u16)
        ensures
            r == reported_flags(self@, opcode as int),
    {
        proof {
            use_type_invariant(self);
        }
        let at: usize = PROBE_HEADER_SIZE + PROBE_OP_SIZE * (opcode as usize) + 2;
        (self.bytes[at] as u16) | ((self.bytes[at + 1] as u16) << 8u16)
    }

    /// Whether the kernel supports `opcode`: false above the reported highest
    /// opcode, else the supported bit of its descriptor.
    pub fn is_supported(&self, opcode: u8) -> (r: bool)
        ensures
            r == probe_supports(self@, opcode),
            opcode > reported_last_op(self@) ==> !r,
    {
        if opcode <= self.last_op() {
            self.op_flags(opcode) & OP_SUPPORTED != 0
        } else {
            false
        }
    }

    /// The whole table: entry `op` tells whether `op` is supported.
    pub fn supported_table(&self) -> (r: Vec<bool>)
        ensures
            r@.len() == PROBE_OPS,
            forall|op: int| 0 <= op < PROBE_OPS ==> r@[op] == probe_supports(self@, op as u8),
    {
        let mut table: Vec<bool> = Vec::new();
        let mut op: usize = 0;
        while op < PROBE_OPS
            invariant
                op <= PROBE_OPS,
                table@.len() == op,
                forall|j: int| 0 <= j < op ==> table@[j] == probe_supports(self@, j as u8),
            decreases PROBE_OPS - op,
        {
            let s = self.is_supported(op as u8);
            table.push(s);
            op = op + 1;
        }
        table
    }
}

impl Default for Probe {
    /// A zeroed probe buffer.
    fn default() -> (r: Probe)
        ensures
            r@ == Seq::new(PROBE_SIZE as nat, |i: int| 0u8),
    {
        Probe::new()
    }
}

/// Kernel code of a restriction directive that allows a registration opcode.
pub const RESTRICTION_REGISTER_OP: u16 = 0;

/// Kernel code of a restriction directive that allows a submission opcode.
pub const RESTRICTION_SQE_OP: u16 = 1;

/// Kernel code of a restriction directive on the submission flags allowed.
pub const RESTRICTION_SQE_FLAGS_ALLOWED: u16 = 2;

/// Kernel code of a restriction directive on the submission flags required.
pub const RESTRICTION_SQE_FLAGS_REQUIRED: u16 = 3;

/// Bytes of one restriction record as the kernel reads it.
pub const RESTRICTION_SIZE: usize = 16;

/// What a restriction directive admits.
#[derive(Clone, Copy, Debug, PartialEq, Eq, Structural)]
pub enum RestrictionKind {
    RegisterOp,
    SqeOp,
    SqeFlagsAllowed,
    SqeFlagsRequired,
}

/// The kernel code of each kind of directive.
pub open spec fn kind_code(k: RestrictionKind) -> u16 {
    match k {
        RestrictionKind::RegisterOp => RESTRICTION_REGISTER_OP,
        RestrictionKind::SqeOp => RESTRICTION_SQE_OP,
        RestrictionKind::SqeFlagsAllowed => RESTRICTION_SQE_FLAGS_ALLOWED,
        RestrictionKind::SqeFlagsRequired => RESTRICTION_SQE_FLAGS_REQUIRED,
    }
}

/// One admission directive: its kind and its byte of payload (an opcode or a
/// set of submission flags).
#[derive(Clone, Copy, Debug, PartialEq, Eq, Structural)]
pub struct Restriction {
    pub kind: RestrictionKind,
    pub value: u8,
}

/// The 16-byte kernel record of a directive: the code as a little-endian
/// `u16`, the payload byte, then zeros.
pub open spec fn restriction_record(r: Restriction) -> Seq<u8> {
    seq![kind_code(r.kind) as u8, 0u8, r.value].add(Seq::new(13, |i: int| 0u8))
}

impl Restriction {
    /// Allows the registration opcode `op`.
    pub fn register_op(op: u8) -> (r: Restriction)
        ensures
            r == (Restriction { kind: RestrictionKind::RegisterOp, value: op }),
    {
        Restriction { kind: RestrictionKind::RegisterOp, value: op }
    }

    /// Allows the submission opcode `op`.
    pub fn sqe_op(op: u8) -> (r: Restriction)
        ensures
            r == (Restriction { kind: RestrictionKind::SqeOp, value: op }),
    {
        Restriction { kind: RestrictionKind::SqeOp, value: op }
    }

    /// Allows the submission flags `flags`.
    pub fn sqe_flags_allowed(flags: u8) -> (r: Restriction)
        ensures
            r == (Restriction { kind: RestrictionKind::SqeFlagsAllowed, value: flags }),
    {
        Restriction { kind: RestrictionKind::SqeFlagsAllowed, value: flags }
    }

    /// Requires the submission flags `flags` on every submission.
    pub fn sqe_flags_required(flags: u8) -> (r: Restriction)
        ensures
            r == (Restriction { kind: RestrictionKind::SqeFlagsRequired, value: flags }),
    {
        Restriction { kind: RestrictionKind::SqeFlagsRequired, value: flags }
    }

    /// The kernel code of this directive's kind.
    pub fn code(&self) -> (r: u16)
        ensures
            r == kind_code(self.kind),
    {
        match self.kind {
            RestrictionKind::RegisterOp => RESTRICTION_REGISTER_OP,
            RestrictionKind::SqeOp => RESTRICTION_SQE_OP,
            RestrictionKind::SqeFlagsAllowed => RESTRICTION_SQE_FLAGS_ALLOWED,
            RestrictionKind::SqeFlagsRequired => RESTRICTION_SQE_FLAGS_REQUIRED,
        }
    }

    /// Appends the kernel record of this directive to `out`.
    pub fn encode_into(&self, out: &mut Vec<u8>)
        ensures
            final(out)@ == old(out)@ + restriction_record(*self),
    {
        let code = self.code();
        out.push(code as u8);
        out.push(0u8);
        out.push(self.value);
        let mut i: usize = 0;
        while i < 13
            invariant
                i <= 13,
                out@ == old(out)@ + seq![kind_code(self.kind) as u8, 0u8, self.value].add(
                    Seq::new(i as nat, |j: int| 0u8),
                ),
            decreases 13 - i,
        {
            out.push(0u8);
            i = i + 1;
            assert(seq![kind_code(self.kind) as u8, 0u8, self.value].add(
                Seq::new(i as nat, |j: int| 0u8),
            ) =~= seq![kind_code(self.kind) as u8, 0u8, self.value].add(
                Seq::new((i - 1) as nat, |j: int| 0u8),
            ).push(0u8));
        }
    }
}

/// Why a directive could not be added.
#[derive(Clone, Copy, Debug, PartialEq, Eq, Structural)]
pub enum RestrictionError {
    /// The set was already installed on a ring and is now fixed.
    Installed,
}

/// The concatenated kernel records of a sequence of directives.
pub open spec fn records(ds: Seq<Restriction>) -> Seq<u8>
    decreases ds.len(),
{
    if ds.len() == 0 {
        Seq::empty()
    } else {
        records(ds.drop_last()) + restriction_record(ds.last())
    }
}

/// An ordered list of directives, built before the ring starts and fixed
/// once it is installed: directives are only ever appended.
pub struct RestrictionSet {
    directives: Vec<Restriction>,
    installed: bool,
}

impl RestrictionSet {
    /// The directives, in the order they were added.
    pub closed spec fn directives(&self) -> Seq<Restriction> {
        self.directives@
    }

    /// Whether the set has been installed.
    pub closed spec fn installed(&self) -> bool {
        self.installed
    }

    /// An empty set that still accepts directives.
    pub fn new() -> (r: RestrictionSet)
        ensures
            r.directives() == Seq::<Restriction>::empty(),
            !r.installed(),
    {
        RestrictionSet { directives: Vec::new(), installed: false }
    }

    /// Appends `d` after the directives already present; refused once the
    /// set is installed.
    pub fn add(&mut self, d: Restriction) -> (r: Result<(), RestrictionError>)
        ensures
            r is Ok <==> !old(self).installed(),
            r is Ok ==> final(self).directives() == old(self).directives().push(d),
            r is Err ==> final(self).directives() == old(self).directives(),
            final(self).installed() == old(self).installed(),
    {
        if self.installed {
            Err(RestrictionError::Installed)
        } else {
            self.directives.push(d);
            Ok(())
        }
    }

    /// Marks the set installed: from now on it is fixed.
    pub fn mark_installed(&mut self)
        ensures
            final(self).directives() == old(self).directives(),
            final(self).installed(),
    {
        self.installed = true;
    }

    /// Whether the set has been installed.
    pub fn is_installed(&self) -> (r: bool)
        ensures
            r == self.installed(),
    {
        self.installed
    }

    /// Number of directives.
    pub fn len(&self) -> (r: usize)
        ensures
            r == self.directives().len(),
    {
        self.directives.len()
    }

    /// The directive at position `i`.
    pub fn get(&self, i: usize) -> (r: Option<Restriction>)
        ensures
            r.is_some() <==> i < self.directives().len(),
            r.is_some() ==> r.unwrap() == self.directives()[i as int],
    {
        if i < self.directives.len() {
            Some(self.directives[i])
        } else {
            None
        }
    }

    /// The argument of the restriction registration: every record, in order.
    pub fn to_bytes(&self) -> (r: Vec<u8>)
        ensures
            r@ == records(self.directives()),
    {
        let mut out: Vec<u8> = Vec::new();
        let mut i: usize = 0;
        while i < self.directives.len()
            invariant
                i <= self.directives@.len(),
                out@ == records(self.directives@.subrange(0, i as int)),
            decreases self.directives@.len() - i,
        {
            let d = self.directives[i];
            d.encode_into(&mut out);
            i = i + 1;
            assert(self.directives@.subrange(0, i as int).drop_last()
                =~= self.directives@.subrange(0, (i - 1) as int));
        }
        assert(self.directives@.subrange(0, i as int) =~= self.directives@);
        out
    }
}

} // verus!
