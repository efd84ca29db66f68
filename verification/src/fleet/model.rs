//! A fleet as a value: who we are in it, what its rings hold, and its contest
//! state.

use vstd::prelude::*;

use crate::contest::model::TableView;
use crate::id::NetId64;
use crate::ring::cursor::RingLoss;
use crate::ring::registry;
use crate::ring::registry::FamilyView;
use crate::ring::{FrameView, RingSpec, RingView};

verus! {

/// One member's view of its fleet.
#[verifier::ext_equal]
pub struct FleetView {
    pub name: Seq<char>,
    pub size: u8,
    pub node: u16,
    pub rings: Map<u8, FamilyView>,
    pub contest: TableView,
    pub minted: Seq<u64>,
}

impl FleetView {
    /// What every operation keeps: the member is one of the fleet, and the rings
    /// and the contest state are consistent.
    pub open spec fn consistent(self) -> bool {
        &&& self.node < self.size
        &&& registry::registry_consistent(self.rings, self.size)
        &&& self.contest.consistent()
        &&& self.minted.len() == 256
    }

    /// The rings of a kind.
    pub open spec fn family(self, kind: u8, spec: RingSpec) -> FamilyView {
        registry::family_of(self.rings, kind, spec, self.size)
    }

    /// The lane of a kind that this member writes to.
    pub open spec fn home(self, kind: u8, spec: RingSpec) -> RingView {
        self.family(kind, spec).home(self.node)
    }

    /// Whether a kind can be used with this layout: the layout is sound, and the
    /// kind is not in use with another one.
    pub open spec fn compatible(self, kind: u8, spec: RingSpec) -> bool {
        spec.valid() && (self.rings.contains_key(kind) ==> self.rings[kind].spec == spec)
    }

    /// Whether this member can append `count` frames to the kind.
    pub open spec fn has_room(self, kind: u8, spec: RingSpec, count: nat) -> bool {
        self.compatible(kind, spec) && self.home(kind, spec).head() + count <= u64::MAX
    }

    /// The fleet with the rings of one kind replaced.
    pub open spec fn with_family(self, kind: u8, family: FamilyView) -> FleetView {
        FleetView { rings: self.rings.insert(kind, family), ..self }
    }

    /// The frame that a publish of this member produces.
    pub open spec fn next_frame(
        self,
        kind: u8,
        spec: RingSpec,
        frame_kind: u8,
        ver: u64,
        payload: Seq<u8>,
    ) -> FrameView {
        self.home(kind, spec).next_frame(self.node, frame_kind, ver, payload)
    }

    /// The fleet after this member published one frame.
    pub open spec fn published(
        self,
        kind: u8,
        spec: RingSpec,
        frame_kind: u8,
        ver: u64,
        payload: Seq<u8>,
    ) -> FleetView {
        self.with_family(
            kind,
            self.family(kind, spec).appended(self.node, frame_kind, ver, payload),
        )
    }

    /// The fleet after this member published several frames of one version, one
    /// behind the other.
    pub open spec fn published_batch(
        self,
        kind: u8,
        spec: RingSpec,
        frame_kind: u8,
        ver: u64,
        payloads: Seq<Seq<u8>>,
    ) -> FleetView
        decreases payloads.len(),
    {
        if payloads.len() == 0 {
            self
        } else {
            self.published_batch(kind, spec, frame_kind, ver, payloads.drop_last()).published(
                kind,
                spec,
                frame_kind,
                ver,
                payloads.last(),
            )
        }
    }

    /// The frame with exactly this identifier.
    pub open spec fn found(self, id: NetId64) -> Option<FrameView> {
        let kind = id.spec_kind();
        if !self.rings.contains_key(kind) {
            None
        } else {
            let family = self.rings[kind];
            let lane = registry::lane_of(family.spec.topology, id.spec_node());
            if lane < family.lanes.len() {
                family.lanes[lane].lookup(id)
            } else {
                None
            }
        }
    }

    /// The fleet after an identifier of a kind was minted.
    pub open spec fn after_mint(self, kind: u8) -> FleetView {
        FleetView {
            minted: self.minted.update(kind as int, self.minted[kind as int].wrapping_add(1)),
            ..self
        }
    }
}

/// The frames that a poll of several lanes delivers, lane by lane.
pub open spec fn lane_frames(lanes: Seq<RingView>, next: Seq<u64>) -> Seq<FrameView>
    decreases lanes.len(),
{
    if lanes.len() == 0 {
        seq![]
    } else {
        lane_frames(lanes.drop_last(), next.drop_last()) + lanes.last().polled(next.last()).frames
    }
}

/// The loss that a poll of several lanes reports, summed without overflow.
pub open spec fn lane_loss(lanes: Seq<RingView>, next: Seq<u64>) -> RingLoss
    decreases lanes.len(),
{
    if lanes.len() == 0 {
        RingLoss { overwritten: 0, unavailable: 0 }
    } else {
        let before = lane_loss(lanes.drop_last(), next.drop_last());
        let lane = lanes.last().polled(next.last()).loss;
        RingLoss {
            overwritten: before.overwritten.saturating_add(lane.overwritten),
            unavailable: before.unavailable.saturating_add(lane.unavailable),
        }
    }
}

/// Where the cursors stand after a poll of several lanes.
pub open spec fn lane_next(lanes: Seq<RingView>, next: Seq<u64>) -> Seq<u64> {
    Seq::new(lanes.len(), |i: int| lanes[i].polled(next[i]).to_counter)
}

/// A batch extends the home lane by its frames and touches nothing else.
pub proof fn lemma_published_batch(
    fleet: FleetView,
    kind: u8,
    spec: RingSpec,
    frame_kind: u8,
    ver: u64,
    payloads: Seq<Seq<u8>>,
)
    requires
        fleet.consistent(),
        fleet.compatible(kind, spec),
    ensures
        ({
            let after = fleet.published_batch(kind, spec, frame_kind, ver, payloads);
            let lane = registry::lane_of(spec.topology, fleet.node);
            &&& after.name == fleet.name
            &&& after.size == fleet.size
            &&& after.node == fleet.node
            &&& after.contest == fleet.contest
            &&& after.minted == fleet.minted
            &&& forall|other: u8| other != kind ==> (#[trigger] after.rings.contains_key(other)
                == fleet.rings.contains_key(other))
            &&& forall|other: u8| other != kind ==> #[trigger] after.rings[other]
                == fleet.rings[other]
            &&& after.family(kind, spec).kind == kind
            &&& after.family(kind, spec).spec == spec
            &&& after.family(kind, spec).version == fleet.family(kind, spec).version
            &&& after.family(kind, spec).lanes == fleet.family(kind, spec).lanes.update(
                lane,
                after.home(kind, spec),
            )
            &&& after.home(kind, spec).kind == kind
            &&& after.home(kind, spec).spec == spec
            &&& after.home(kind, spec).log == fleet.home(kind, spec).log + batch_frames(
                fleet.home(kind, spec),
                fleet.node,
                frame_kind,
                ver,
                payloads,
            )
        }),
    decreases payloads.len(),
{
    let lane = registry::lane_of(spec.topology, fleet.node);
    let family = fleet.family(kind, spec);
    lemma_family_consistent(fleet, kind, spec);
    assert(family.lanes[lane].kind == kind);
    if payloads.len() == 0 {
        assert(family.lanes =~= family.lanes.update(lane, fleet.home(kind, spec)));
        assert(fleet.home(kind, spec).log =~= fleet.home(kind, spec).log + batch_frames(
            fleet.home(kind, spec),
            fleet.node,
            frame_kind,
            ver,
            payloads,
        ));
    } else {
        lemma_published_batch(fleet, kind, spec, frame_kind, ver, payloads.drop_last());
        let before = fleet.published_batch(kind, spec, frame_kind, ver, payloads.drop_last());
        let after = fleet.published_batch(kind, spec, frame_kind, ver, payloads);
        let home = fleet.home(kind, spec);
        assert(after.rings.contains_key(kind));
        assert(after.home(kind, spec) == before.home(kind, spec).appended(
            fleet.node,
            frame_kind,
            ver,
            payloads.last(),
        ));
        assert(after.home(kind, spec).log =~= home.log + batch_frames(
            home,
            fleet.node,
            frame_kind,
            ver,
            payloads,
        ));
        assert(after.family(kind, spec).lanes =~= family.lanes.update(
            lane,
            after.home(kind, spec),
        ));
    }
}

/// The frames of a batch.
pub open spec fn batch_frames(
    lane: RingView,
    node: u16,
    frame_kind: u8,
    ver: u64,
    payloads: Seq<Seq<u8>>,
) -> Seq<FrameView> {
    Seq::new(
        payloads.len(),
        |i: int|
            FrameView {
                id: NetId64::minted(lane.kind, node, (lane.head() + i) as nat),
                kind: frame_kind,
                ver,
                payload: payloads[i],
            },
    )
}

/// The rings of a usable kind are consistent, and the member has a lane in them.
pub proof fn lemma_family_consistent(fleet: FleetView, kind: u8, spec: RingSpec)
    requires
        fleet.consistent(),
        fleet.compatible(kind, spec),
    ensures
        fleet.family(kind, spec).kind == kind,
        fleet.family(kind, spec).spec == spec,
        fleet.family(kind, spec).consistent(fleet.size),
        0 <= registry::lane_of(spec.topology, fleet.node) < fleet.family(kind, spec).lanes.len(),
        fleet.home(kind, spec).kind == kind,
        fleet.home(kind, spec).spec == spec,
        fleet.home(kind, spec).consistent(),
{
    let family = fleet.family(kind, spec);
    let lane = registry::lane_of(spec.topology, fleet.node);
    assert(family.consistent(fleet.size));
    assert(0 <= lane < family.lanes.len());
    assert(family.lanes[lane].consistent());
}

} // verus!
