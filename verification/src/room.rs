//! Doors as continuous maps between rooms, and rooms as connected open sets
//! whose boundary is made of doors.
use vstd::prelude::*;
use vstd::string::StringExecFns;
use crate::continuity::ContinuityClass;

verus! {

/// A door connecting two rooms, modelled as a continuous map
/// `from → to`; when `bidirectional` the map has a continuous inverse.
#[derive(Debug, PartialEq)]
pub struct Door {
    /// Source room id.
    pub from: String,
    /// Target room id.
    pub to: String,
    /// Whether the door can be traversed in both directions.
    pub bidirectional: bool,
    /// Smoothness of the transition.
    pub continuity: ContinuityClass,
}

/// The mathematical value of a door.
pub struct DoorView {
    pub from: Seq<char>,
    pub to: Seq<char>,
    pub bidirectional: bool,
    pub continuity: ContinuityClass,
}

impl View for Door {
    type V = DoorView;

    open spec fn view(&self) -> DoorView {
        DoorView {
            from: self.from@,
            to: self.to@,
            bidirectional: self.bidirectional,
            continuity: self.continuity,
        }
    }
}

impl Clone for Door {
    fn clone(&self) -> (r: Self)
        ensures
            r@ == self@,
    {
        Door {
            from: self.from.clone(),
            to: self.to.clone(),
            bidirectional: self.bidirectional,
            continuity: self.continuity,
        }
    }
}

impl Door {
    /// A new bidirectional C⁰ door.
    pub fn new(from: &str, to: &str) -> (d: Door)
        ensures
            d@ == (DoorView {
                from: from@,
                to: to@,
                bidirectional: true,
                continuity: ContinuityClass::C0,
            }),
    {
        Door {
            from: String::from_str(from),
            to: String::from_str(to),
            bidirectional: true,
            continuity: ContinuityClass::C0,
        }
    }

    /// A new one-way C⁰ door.
    pub fn one_way(from: &str, to: &str) -> (d: Door)
        ensures
            d@ == (DoorView {
                from: from@,
                to: to@,
                bidirectional: false,
                continuity: ContinuityClass::C0,
            }),
    {
        Door {
            from: String::from_str(from),
            to: String::from_str(to),
            bidirectional: false,
            continuity: ContinuityClass::C0,
        }
    }

    /// A new smooth (C¹) bidirectional door.
    pub fn smooth(from: &str, to: &str) -> (d: Door)
        ensures
            d@ == (DoorView {
                from: from@,
                to: to@,
                bidirectional: true,
                continuity: ContinuityClass::C1,
            }),
    {
        Door {
            from: String::from_str(from),
            to: String::from_str(to),
            bidirectional: true,
            continuity: ContinuityClass::C1,
        }
    }

    /// The same door with continuity class `cc`.
    pub fn with_continuity(self, cc: ContinuityClass) -> (d: Door)
        ensures
            d@ == (DoorView { continuity: cc, ..self@ }),
    {
        let mut d = self;
        d.continuity = cc;
        d
    }

    /// The reverse door `to → from`, which exists only for a bidirectional
    /// door.
    pub fn reverse(&self) -> (r: Option<Door>)
        ensures
            self.bidirectional ==> r is Some && r->0@ == reverse_door(self@),
            self.bidirectional ==> r->0.from@ == self.to@ && r->0.to@ == self.from@ && r->0.bidirectional
                && r->0.continuity == self.continuity,
            !self.bidirectional ==> r is None,
    {
        if self.bidirectional {
            Some(
                Door {
                    from: self.to.clone(),
                    to: self.from.clone(),
                    bidirectional: true,
                    continuity: self.continuity,
                },
            )
        } else {
            None
        }
    }
}

/// The reverse of a door: its endpoints swapped.
pub open spec fn reverse_door(d: DoorView) -> DoorView {
    DoorView { from: d.to, to: d.from, bidirectional: true, continuity: d.continuity }
}

/// The reverse of a door is the inverse map: its ends swapped, still
/// bidirectional, and of the same continuity class as the door.
pub proof fn law_reverse_is_inverse(d: DoorView)
    ensures
        reverse_door(d).from == d.to,
        reverse_door(d).to == d.from,
        reverse_door(d).bidirectional,
        reverse_door(d).continuity == d.continuity,
{
}

/// Reversing a bidirectional door twice gives the door back.
pub proof fn lemma_reverse_involution(d: DoorView)
    requires
        d.bidirectional,
    ensures
        reverse_door(reverse_door(d)) == d,
{
}

/// A topological room: a connected open set whose boundary is its exits.
#[derive(Debug, PartialEq)]
pub struct Room {
    /// Identifier.
    pub id: String,
    /// Doors forming the boundary of this room.
    pub exits: Vec<Door>,
}

/// The mathematical value of a room.
pub struct RoomView {
    pub id: Seq<char>,
    pub exits: Seq<DoorView>,
}

impl View for Room {
    type V = RoomView;

    open spec fn view(&self) -> RoomView {
        RoomView { id: self.id@, exits: self.exits@.map_values(|d: Door| d@) }
    }
}

/// A copy of a list of doors.
pub(crate) fn clone_doors(v: &Vec<Door>) -> (r: Vec<Door>)
    ensures
        r@.map_values(|d: Door| d@) == v@.map_values(|d: Door| d@),
{
    let mut r: Vec<Door> = Vec::new();
    let mut i: usize = 0;
    while i < v.len()
        invariant
            i <= v@.len(),
            r@.len() == i,
            forall|k: int| 0 <= k < i ==> (#[trigger] r@[k])@ == v@[k]@,
        decreases v@.len() - i,
    {
        r.push(v[i].clone());
        i = i + 1;
    }
    assert(r@.map_values(|d: Door| d@) =~= v@.map_values(|d: Door| d@));
    r
}

impl Clone for Room {
    fn clone(&self) -> (r: Self)
        ensures
            r@ == self@,
    {
        Room { id: self.id.clone(), exits: clone_doors(&self.exits) }
    }
}

/// The targets of a sequence of doors, in order.
pub open spec fn targets(exits: Seq<DoorView>) -> Seq<Seq<char>> {
    exits.map_values(|d: DoorView| d.to)
}

impl Room {
    /// A new room with no exits.
    pub fn new(id: &str) -> (r: Room)
        ensures
            r@.id == id@,
            r@.exits.len() == 0,
    {
        Room { id: String::from_str(id), exits: Vec::new() }
    }

    /// The same room with one more exit.
    pub fn with_exit(self, door: Door) -> (r: Room)
        ensures
            r@.id == self@.id,
            r@.exits == self@.exits.push(door@),
    {
        let mut r = self;
        r.exits.push(door);
        assert(r@.exits =~= self@.exits.push(door@));
        r
    }

    /// The dimension of this room: the number of distinct exit targets.
    pub fn dimension(&self) -> (n: usize)
        ensures
            n == targets(self@.exits).to_set().len(),
    {
        let mut seen: Vec<&String> = Vec::new();
        let mut i: usize = 0;
        while i < self.exits.len()
            invariant
                i <= self.exits@.len(),
                seen@.len() <= i,
                seen@.map_values(|s: &String| s@).no_duplicates(),
                seen@.map_values(|s: &String| s@).to_set() == targets(self@.exits).take(
                    i as int,
                ).to_set(),
            decreases self.exits@.len() - i,
        {
            let t = &self.exits[i].to;
            let ghost before = seen@.map_values(|s: &String| s@);
            let mut found = false;
            let mut k: usize = 0;
            while k < seen.len()
                invariant
                    k <= seen@.len(),
                    found == exists|m: int| 0 <= m < k && (#[trigger] seen@[m])@ == t@,
                decreases seen@.len() - k,
            {
                if *seen[k] == *t {
                    found = true;
                }
                k = k + 1;
            }
            let ghost tk = targets(self@.exits).take(i as int);
            assert(targets(self@.exits).take(i + 1) =~= tk.push(t@));
            if !found {
                seen.push(t);
                proof {
                    let after = seen@.map_values(|s: &String| s@);
                    assert(after =~= before.push(t@));
                    assert(!before.contains(t@)) by {
                        if before.contains(t@) {
                            let m = choose|m: int| 0 <= m < before.len() && before[m] == t@;
                            assert(seen@[m]@ == t@);
                        }
                    }
                    before.lemma_push_to_set_commute(t@);
                    tk.lemma_push_to_set_commute(t@);
                }
            } else {
                proof {
                    let m = choose|m: int| 0 <= m < seen@.len() && (#[trigger] seen@[m])@ == t@;
                    assert(before[m] == t@);
                    assert(before.to_set().contains(t@));
                    tk.lemma_push_to_set_commute(t@);
                    assert(tk.push(t@).to_set() =~= before.to_set());
                }
            }
            i = i + 1;
        }
        proof {
            let sv = seen@.map_values(|s: &String| s@);
            sv.unique_seq_to_set();
            assert(targets(self@.exits).take(self.exits@.len() as int) =~= targets(self@.exits));
        }
        seen.len()
    }

    /// The ids of the rooms reachable directly from this room, in exit order.
    pub fn neighbors(&self) -> (v: Vec<&str>)
        ensures
            v@.map_values(|s: &str| s@) == targets(self@.exits),
    {
        let mut v: Vec<&str> = Vec::new();
        let mut i: usize = 0;
        while i < self.exits.len()
            invariant
                i <= self.exits@.len(),
                v@.len() == i,
                forall|k: int| 0 <= k < i ==> (#[trigger] v@[k])@ == self.exits@[k].to@,
            decreases self.exits@.len() - i,
        {
            v.push(self.exits[i].to.as_str());
            i = i + 1;
        }
        assert(v@.map_values(|s: &str| s@) =~= targets(self@.exits));
        v
    }

    /// Whether this room has a door to `target`.
    pub fn has_exit_to(&self, target: &str) -> (b: bool)
        ensures
            b == targets(self@.exits).contains(target@),
    {
        let t = String::from_str(target);
        let mut i: usize = 0;
        while i < self.exits.len()
            invariant
                i <= self.exits@.len(),
                t@ == target@,
                forall|k: int| 0 <= k < i ==> (#[trigger] self.exits@[k]).to@ != target@,
            decreases self.exits@.len() - i,
        {
            if self.exits[i].to == t {
                assert(targets(self@.exits)[i as int] == target@);
                return true;
            }
            i = i + 1;
        }
        proof {
            if targets(self@.exits).contains(target@) {
                let k = choose|k: int| 0 <= k < targets(self@.exits).len() && targets(self@.exits)[k] == target@;
                assert(self.exits@[k].to@ == target@);
            }
        }
        false
    }
}

} // verus!
