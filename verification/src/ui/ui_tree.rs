use crate::layout::Rect;
use crate::ui::{lemma_opposite_involutive, spec_direction, Direction, UIObject};
use vstd::prelude::*;

verus! {

/// A node of a `UITree`: an object and, for each direction, the node next
/// to it that way, as an index into the tree's nodes.
pub struct UITreeNode<T> {
    obj: T,
    up: Option<usize>,
    down: Option<usize>,
    left: Option<usize>,
    right: Option<usize>,
}

impl<T> UITreeNode<T> {
    /// The object held by this node.
    pub closed spec fn object(&self) -> T {
        self.obj
    }

    /// The neighbour of this node in direction `d`.
    pub closed spec fn neighbour(&self, d: Direction) -> Option<usize> {
        match d {
            Direction::Up => self.up,
            Direction::Down => self.down,
            Direction::Left => self.left,
            Direction::Right => self.right,
        }
    }

    /// A node that holds `node` and has no neighbours.
    pub fn new(node: T) -> (n: Self)
        ensures
            n.object() == node,
            forall|d: Direction| #[trigger] n.neighbour(d) is None,
    {
        UITreeNode { obj: node, up: None, down: None, left: None, right: None }
    }

    fn get_neighbour(&self, d: Direction) -> (r: Option<usize>)
        ensures
            r == self.neighbour(d),
    {
        match d {
            Direction::Up => self.up,
            Direction::Down => self.down,
            Direction::Left => self.left,
            Direction::Right => self.right,
        }
    }

    fn set_neighbour(&mut self, d: Direction, v: Option<usize>)
        ensures
            final(self).object() == old(self).object(),
            final(self).neighbour(d) == v,
            forall|e: Direction| e != d ==> #[trigger] final(self).neighbour(e) == old(self).neighbour(e),
    {
        match d {
            Direction::Up => self.up = v,
            Direction::Down => self.down = v,
            Direction::Left => self.left = v,
            Direction::Right => self.right = v,
        }
    }
}

/// Keeps track of objects by their position on screen, and lets the focus
/// move up, down, left and right among them. An inserted object is attached
/// to the tree where its position leads, and every link is matched by a link
/// back the other way.
pub struct UITree<T> {
    nodes: Vec<UITreeNode<T>>,
    current: Option<usize>,
    /// For every node but the first, the direction of its parent, the node
    /// it was attached to.
    parent_dir: Ghost<Seq<Direction>>,
}

impl<T> UITree<T> {
    /// The number of objects in the tree.
    pub closed spec fn len(&self) -> nat {
        self.nodes@.len()
    }

    /// The object at index `i`, indices counting insertions from 0.
    pub closed spec fn obj(&self, i: int) -> T {
        self.nodes@[i].object()
    }

    /// The index of the neighbour of node `i` in direction `d`.
    pub closed spec fn link(&self, i: int, d: Direction) -> Option<usize> {
        self.nodes@[i].neighbour(d)
    }

    /// The index of the node that holds the focus position.
    pub closed spec fn cur(&self) -> Option<usize> {
        self.current
    }

    /// The direction in which node `i` sees its parent.
    pub closed spec fn pdir(&self, i: int) -> Direction {
        self.parent_dir@[i]
    }

    /// The parent of node `i`: the node it was attached to.
    pub closed spec fn parent(&self, i: int) -> int {
        self.link(i, self.pdir(i))->0 as int
    }

    /// Node `i` is linked to an earlier node in its parent's direction.
    pub closed spec fn has_parent(&self, i: int) -> bool {
        &&& self.link(i, self.pdir(i)) is Some
        &&& self.link(i, self.pdir(i))->0 < i
    }

    /// The structure every tree keeps: a current node exactly when the tree
    /// is not empty; every link in bounds and matched by the opposite link
    /// back; and every node linked to at most one earlier node (its parent),
    /// every node but the first to exactly one.
    pub closed spec fn wf(&self) -> bool {
        &&& self.parent_dir@.len() == self.nodes@.len()
        &&& forall|i: int| 0 < i < self.len() ==> #[trigger] self.has_parent(i)
        &&& self.nodes@.len() <= usize::MAX
        &&& (self.current is None <==> self.nodes@.len() == 0)
        &&& (self.current matches Some(c) ==> c < self.nodes@.len())
        &&& forall|i: int, d: Direction|
            0 <= i < self.len() && (#[trigger] self.link(i, d)) is Some ==> {
                let j = self.link(i, d)->0 as int;
                &&& 0 <= j < self.len()
                &&& j != i
                &&& self.link(j, d.opposite()) == Some(i as usize)
            }
        &&& forall|i: int, d1: Direction, d2: Direction|
            0 <= i < self.len() && d1 != d2 && (#[trigger] self.link(i, d1)) is Some
                && (#[trigger] self.link(i, d2)) is Some && self.link(i, d1)->0 < i ==> self.link(
                i,
                d2,
            )->0 > i
    }

    /// Whether the tree is well formed depends only on its links, its parent
    /// directions and its current index.
    proof fn lemma_wf_same_links(a: &Self, b: &Self)
        requires
            a.wf(),
            b.nodes@.len() == a.nodes@.len(),
            b.parent_dir@ == a.parent_dir@,
            b.current is None <==> b.nodes@.len() == 0,
            b.current matches Some(c) ==> c < b.nodes@.len(),
            forall|i: int, d: Direction| 0 <= i < a.len() ==> #[trigger] b.link(i, d) == a.link(i, d),
        ensures
            b.wf(),
    {
        assert forall|i: int| 0 < i < b.len() implies #[trigger] b.has_parent(i) by {
            assert(a.has_parent(i));
        }
        assert forall|i: int, d: Direction|
            0 <= i < b.len() && (#[trigger] b.link(i, d)) is Some implies {
            let j = b.link(i, d)->0 as int;
            &&& 0 <= j < b.len()
            &&& j != i
            &&& b.link(j, d.opposite()) == Some(i as usize)
        } by {
            assert(a.link(i, d) is Some);
            let j = a.link(i, d)->0 as int;
            assert(a.link(j, d.opposite()) == Some(i as usize));
        }
        assert forall|i: int, d1: Direction, d2: Direction|
            0 <= i < b.len() && d1 != d2 && (#[trigger] b.link(i, d1)) is Some
                && (#[trigger] b.link(i, d2)) is Some && b.link(i, d1)->0 < i implies b.link(
            i,
            d2,
        )->0 > i by {
            assert(a.link(i, d1) is Some);
            assert(a.link(i, d2) is Some);
        }
    }

    /// An empty tree.
    pub fn new() -> (t: UITree<T>)
        ensures
            t.wf(),
            t.len() == 0,
            t.cur() is None,
    {
        UITree { nodes: Vec::new(), current: None, parent_dir: Ghost(Seq::empty()) }
    }

    /// Moves the current position to its neighbour in direction `dir`, if it
    /// has one; says whether it moved.
    pub fn move_dir(&mut self, dir: Direction) -> (moved: bool)
        requires
            old(self).wf(),
        ensures
            final(self).wf(),
            final(self).len() == old(self).len(),
            forall|i: int| 0 <= i < old(self).len() ==> #[trigger] final(self).obj(i) == old(self).obj(i),
            forall|i: int, d: Direction|
                0 <= i < old(self).len() ==> #[trigger] final(self).link(i, d) == old(self).link(i, d),
            moved == (old(self).cur() matches Some(c) && old(self).link(c as int, dir) is Some),
            final(self).cur() == (if moved {
                old(self).link(old(self).cur()->0 as int, dir)
            } else {
                old(self).cur()
            }),
            moved ==> final(self).link(final(self).cur()->0 as int, dir.opposite()) == old(self).cur(),
    {
        match self.current {
            Some(c) => {
                let next = self.nodes[c].get_neighbour(dir);
                if next.is_some() {
                    assert(self.link(c as int, dir) is Some);
                    self.current = next;
                    assert(forall|i: int, d: Direction| #[trigger] self.link(i, d) == old(self).link(i, d));
                    proof {
                        Self::lemma_wf_same_links(old(self), self);
                    }
                    true
                } else {
                    false
                }
            },
            None => false,
        }
    }
}

impl<T: UIObject> UITree<T> {
    /// Every object's centre is an addressable cell.
    pub open spec fn areas_fit(&self) -> bool {
        forall|i: int| 0 <= i < self.len() ==> (#[trigger] self.obj(i)).area().center_fits()
    }

    /// The slot where an object occupying `area` is attached, when the search
    /// stands at node `i`: the search goes on in the direction in which `area`
    /// lies from node `i`'s object, and ends at the first node without a
    /// neighbour that way. `back` is the direction of the node the search
    /// came from; the search fails when it would turn back there. `desc`
    /// records that the search has stepped to a later node.
    pub open spec fn slot_from(&self, i: int, area: Rect, back: Option<Direction>, desc: bool) -> Option<
        (usize, Direction),
    >
        decreases
                (if desc {
                    0int
                } else {
                    1int
                }),
                (if desc {
                    self.len() - i
                } else {
                    i
                }),
    {
        if 0 <= i < self.len() {
            let d = spec_direction(self.obj(i).area(), area);
            if back == Some(d) {
                None
            } else {
                match self.link(i, d) {
                    None => Some((i as usize, d)),
                    Some(j) => {
                        if (j as int) < i {
                            if desc {
                                None
                            } else {
                                self.slot_from(j as int, area, Some(d.opposite()), false)
                            }
                        } else if i < (j as int) < self.len() {
                            self.slot_from(j as int, area, Some(d.opposite()), true)
                        } else {
                            None
                        }
                    },
                }
            }
        } else {
            None
        }
    }

    /// Where an object occupying `area` is attached: the node and the
    /// direction of the new link, found by searching from the current node.
    /// `None` for an empty tree (the object becomes the first node) and for a
    /// search that turns back.
    pub open spec fn insert_target(&self, area: Rect) -> Option<(usize, Direction)> {
        match self.cur() {
            Some(c) => self.slot_from(c as int, area, None, false),
            None => None,
        }
    }

    /// An object occupying `area` can be inserted: the tree is empty, or the
    /// search from the current node ends without turning back.
    pub open spec fn can_place(&self, area: Rect) -> bool {
        self.len() == 0 || self.insert_target(area) is Some
    }

    /// The link of node `i` in direction `e` once an object occupying `area`
    /// has been inserted: the new node gets index `len()`, and the only new
    /// links join it with the node where the search ended.
    pub open spec fn link_after_insert(&self, area: Rect, i: int, e: Direction) -> Option<usize> {
        match self.insert_target(area) {
            Some((p, d)) => {
                if i == p && e == d {
                    Some(self.len() as usize)
                } else if i == self.len() && e == d.opposite() {
                    Some(p)
                } else if i < self.len() {
                    self.link(i, e)
                } else {
                    None
                }
            },
            None => {
                if i < self.len() {
                    self.link(i, e)
                } else {
                    None
                }
            },
        }
    }

    /// A slot that the search finds is a node of the tree without a
    /// neighbour in the slot's direction, and that direction is where the
    /// area lies from that node's object.
    proof fn lemma_slot_from(&self, i: int, area: Rect, back: Option<Direction>, desc: bool)
        requires
            self.wf(),
        ensures
            self.slot_from(i, area, back, desc) matches Some((p, d)) ==> {
                &&& 0 <= p < self.len()
                &&& self.link(p as int, d) is None
                &&& d == spec_direction(self.obj(p as int).area(), area)
            },
        decreases
                (if desc {
                    0int
                } else {
                    1int
                }),
                (if desc {
                    self.len() - i
                } else {
                    i
                }),
    {
        if 0 <= i < self.len() {
            let d = spec_direction(self.obj(i).area(), area);
            if back != Some(d) {
                match self.link(i, d) {
                    None => {},
                    Some(j) => {
                        if (j as int) < i {
                            if !desc {
                                self.lemma_slot_from(j as int, area, Some(d.opposite()), false);
                            }
                        } else if i < (j as int) < self.len() {
                            self.lemma_slot_from(j as int, area, Some(d.opposite()), true);
                        }
                    },
                }
            }
        }
    }

    /// Executable search for the slot, following `slot_from`.
    fn find_slot(&self, i: usize, area: Rect, back: Option<Direction>, desc: bool) -> (r: Option<
        (usize, Direction),
    >)
        requires
            self.wf(),
            self.areas_fit(),
            area.center_fits(),
            i < self.len(),
        ensures
            r == self.slot_from(i as int, area, back, desc),
        decreases
                (if desc {
                    0int
                } else {
                    1int
                }),
                (if desc {
                    self.len() - i
                } else {
                    i as int
                }),
    {
        assert(self.obj(i as int).area().center_fits());
        let d = self.nodes[i].obj.relative_direction(area);
        match back {
            Some(b) => {
                if b == d {
                    return None;
                }
            },
            None => {},
        }
        match self.nodes[i].get_neighbour(d) {
            None => Some((i, d)),
            Some(j) => {
                if j < i {
                    if desc {
                        None
                    } else {
                        self.find_slot(j, area, Some(d.reverse()), false)
                    }
                } else if i < j && j < self.nodes.len() {
                    self.find_slot(j, area, Some(d.reverse()), true)
                } else {
                    None
                }
            },
        }
    }

    /// Whether an object occupying `area` can be inserted (see `insert`).
    pub fn can_insert(&self, area: Rect) -> (b: bool)
        requires
            self.wf(),
            self.areas_fit(),
            area.center_fits(),
        ensures
            b == self.can_place(area),
    {
        match self.current {
            None => true,
            Some(c) => self.find_slot(c, area, None, false).is_some(),
        }
    }

    /// Inserts `obj` where its position leads: from the current node, the
    /// search steps to the neighbour in the direction in which `obj` lies,
    /// until a node has no neighbour that way; `obj` becomes that neighbour,
    /// linked back the opposite way. The first object becomes the current
    /// node. A search that would step back to the node it came from is left
    /// out (`can_place`).
    pub fn insert(&mut self, obj: T)
        requires
            old(self).wf(),
            old(self).areas_fit(),
            old(self).len() > 0 ==> obj.area().center_fits(),
            old(self).can_place(obj.area()),
            old(self).len() < usize::MAX,
        ensures
            final(self).wf(),
            obj.area().center_fits() ==> final(self).areas_fit(),
            final(self).len() == old(self).len() + 1,
            final(self).obj(old(self).len() as int) == obj,
            forall|i: int| 0 <= i < old(self).len() ==> #[trigger] final(self).obj(i) == old(self).obj(i),
            final(self).cur() == (if old(self).len() == 0 {
                Some(0usize)
            } else {
                old(self).cur()
            }),
            forall|i: int, e: Direction|
                0 <= i <= old(self).len() ==> #[trigger] final(self).link(i, e)
                    == old(self).link_after_insert(obj.area(), i, e),
    {
        let ghost old_tree = *self;
        let area = obj.get_area();
        let n = self.nodes.len();
        match self.current {
            None => {
                let mut nodes: Vec<UITreeNode<T>> = Vec::new();
                nodes.push(UITreeNode::new(obj));
                *self = UITree { nodes, current: Some(0), parent_dir: Ghost(Seq::empty().push(Direction::Up)) };
                assert(forall|e: Direction| #[trigger] self.link(0, e) is None);
            },
            Some(c) => {
                proof {
                    self.lemma_slot_from(c as int, area, None, false);
                }
                let slot = self.find_slot(c, area, None, false);
                match slot {
                    Some((p, d)) => {
                        let mut node = UITreeNode::new(obj);
                        node.set_neighbour(d.reverse(), Some(p));
                        self.nodes.push(node);
                        self.nodes[p].set_neighbour(d, Some(n));
                        proof {
                            self.parent_dir@ = self.parent_dir@.push(d.opposite());
                        }
                        proof {
                            assert(forall|i: int, e: Direction|
                                0 <= i <= old_tree.len() ==> #[trigger] self.link(i, e)
                                    == old_tree.link_after_insert(area, i, e));
                            assert(forall|i: int| 0 <= i < old_tree.len() ==> #[trigger] self.obj(i) == old_tree.obj(i));
                            assert forall|i: int| 0 < i < self.len() implies #[trigger] self.has_parent(i) by {
                                if i < old_tree.len() {
                                    assert(old_tree.has_parent(i));
                                    assert(self.pdir(i) == old_tree.pdir(i));
                                    assert(self.link(i, self.pdir(i)) == old_tree.link_after_insert(area, i, self.pdir(i)));
                                } else {
                                    assert(self.pdir(i) == d.opposite());
                                    assert(self.link(i, d.opposite()) == old_tree.link_after_insert(area, i, d.opposite()));
                                }
                            }
                        }
                    },
                    None => {},
                }
            },
        }
    }
}

impl<T> UITree<T> {
    /// Calls `f` on the current object, if there is one, and hands back what
    /// it returned.
    pub fn with_current<F, R>(&self, f: F) -> (r: Option<R>) where F: FnOnce(&T) -> R
        requires
            self.wf(),
            self.cur() matches Some(c) ==> f.requires((&self.obj(c as int),)),
        ensures
            r is Some <==> self.cur() is Some,
            r matches Some(v) ==> f.ensures((&self.obj(self.cur()->0 as int),), v),
    {
        match self.current {
            Some(c) => Some(f(&self.nodes[c].obj)),
            None => None,
        }
    }

    /// Calls `f` on the neighbour of the current object in direction `dir`,
    /// if there is one, and hands back what it returned.
    pub fn with_relative<F, R>(&self, dir: Direction, f: F) -> (r: Option<R>) where
        F: FnOnce(&T) -> R,

        requires
            self.wf(),
            self.cur() is Some && self.link(self.cur()->0 as int, dir) is Some ==> f.requires(
                (&self.obj(self.link(self.cur()->0 as int, dir)->0 as int),),
            ),
        ensures
            r is Some <==> (self.cur() matches Some(c) && self.link(c as int, dir) is Some),
            r matches Some(v) ==> f.ensures(
                (&self.obj(self.link(self.cur()->0 as int, dir)->0 as int),),
                v,
            ),
    {
        match self.current {
            Some(c) => {
                match self.nodes[c].get_neighbour(dir) {
                    Some(j) => {
                        assert(self.link(c as int, dir) is Some);
                        Some(f(&self.nodes[j].obj))
                    },
                    None => None,
                }
            },
            None => None,
        }
    }
}

impl<T> UITree<T> {
    /// Calls `f` on the current object, which `f` may change, if there is
    /// one, and hands back what it returned. The links stay as they were.
    pub fn with_current_mut<F, R>(&mut self, f: F) -> (r: Option<R>) where F: FnOnce(&mut T) -> R
        requires
            old(self).wf(),
            forall|x: &mut T| #[trigger] f.requires((x,)),
        ensures
            final(self).wf(),
            final(self).len() == old(self).len(),
            final(self).cur() == old(self).cur(),
            forall|i: int, d: Direction|
                0 <= i < old(self).len() ==> #[trigger] final(self).link(i, d) == old(self).link(i, d),
            forall|i: int|
                0 <= i < old(self).len() && Some(i as usize) != old(self).cur()
                    ==> #[trigger] final(self).obj(i) == old(self).obj(i),
            r is Some <==> old(self).cur() is Some,
            old(self).cur() matches Some(c) ==> exists|x: &mut T|
                *x == old(self).obj(c as int) && *final(x) == final(self).obj(c as int)
                    && #[trigger] f.ensures((x,), r->0),
    {
        match self.current {
            Some(c) => {
                let ghost old_nodes = self.nodes@;
                let node = &mut self.nodes[c];
                let ghost pre = node.obj;
                let r = f(&mut node.obj);
                let res = Some(r);
                proof {
                    assert(res->0 == r);
                    assert(exists|y: &mut T|
                        *y == pre && *final(y) == self.nodes@[c as int].obj && #[trigger] f.ensures(
                            (y,),
                            res->0,
                        ));
                    assert(forall|i: int| 0 <= i < old_nodes.len() && i != c ==> self.nodes@[i] == old_nodes[i]);
                    assert(forall|i: int, d: Direction|
                        0 <= i < old_nodes.len() ==> #[trigger] self.link(i, d) == old(self).link(i, d));
                    Self::lemma_wf_same_links(old(self), self);
                }
                res
            },
            None => None,
        }
    }
}

impl<T: UIObject> UITree<T> {
    /// Sets the focus flag of object `i`.
    fn set_focus_at(&mut self, i: usize, v: bool)
        requires
            old(self).wf(),
            i < old(self).len(),
        ensures
            final(self).wf(),
            final(self).len() == old(self).len(),
            final(self).cur() == old(self).cur(),
            forall|j: int, d: Direction|
                0 <= j < old(self).len() ==> #[trigger] final(self).link(j, d) == old(self).link(j, d),
            forall|j: int| 0 <= j < old(self).len() && j != i ==> #[trigger] final(self).obj(j) == old(self).obj(j),
            final(self).obj(i as int).focused() == v,
            final(self).obj(i as int).area() == old(self).obj(i as int).area(),
    {
        let ghost old_nodes = self.nodes@;
        self.nodes[i].obj.set_focused(v);
        proof {
            assert(forall|j: int| 0 <= j < old_nodes.len() && j != i ==> self.nodes@[j] == old_nodes[j]);
            assert(forall|j: int, d: Direction|
                0 <= j < old_nodes.len() ==> #[trigger] self.link(j, d) == old(self).link(j, d));
            Self::lemma_wf_same_links(old(self), self);
        }
    }

    /// Moves the focus one step in direction `dir`: when the current object
    /// has a neighbour that way, it loses the focus and the neighbour becomes
    /// current; then the current object gets the focus. Says whether the
    /// focus moved.
    pub fn navigate(&mut self, dir: Direction) -> (moved: bool)
        requires
            old(self).wf(),
        ensures
            final(self).wf(),
            final(self).len() == old(self).len(),
            forall|i: int, d: Direction|
                0 <= i < old(self).len() ==> #[trigger] final(self).link(i, d) == old(self).link(i, d),
            moved == (old(self).cur() matches Some(c) && old(self).link(c as int, dir) is Some),
            final(self).cur() == (if moved {
                old(self).link(old(self).cur()->0 as int, dir)
            } else {
                old(self).cur()
            }),
            final(self).cur() matches Some(c) ==> final(self).obj(c as int).focused(),
            moved ==> !final(self).obj(old(self).cur()->0 as int).focused(),
            forall|i: int|
                0 <= i < old(self).len() && Some(i as usize) != old(self).cur() && Some(i as usize)
                    != final(self).cur() ==> #[trigger] final(self).obj(i) == old(self).obj(i),
            forall|i: int|
                0 <= i < old(self).len() ==> #[trigger] final(self).obj(i).area() == old(self).obj(i).area(),
    {
        let mut moved = false;
        match self.current {
            Some(c) => {
                if self.nodes[c].get_neighbour(dir).is_some() {
                    self.set_focus_at(c, false);
                    moved = self.move_dir(dir);
                }
            },
            None => {},
        }
        match self.current {
            Some(c) => {
                self.set_focus_at(c, true);
            },
            None => {},
        }
        moved
    }
}

impl<T> UITree<T> {
    /// The order in which the nodes are drawn when the traversal stands at
    /// node `i`: first what lies to the right, then below, above and to the
    /// left, leaving out the direction `back` it came from, and node `i`
    /// itself last.
    pub open spec fn order_from(&self, i: int, back: Option<Direction>, desc: bool) -> Seq<usize>
        decreases
                (if desc {
                    0int
                } else {
                    1int
                }),
                (if desc {
                    self.len() - i
                } else {
                    i
                }),
                1int,
    {
        if 0 <= i < self.len() {
            self.order_branch(i, Direction::Right, back, desc) + self.order_branch(
                i,
                Direction::Down,
                back,
                desc,
            ) + self.order_branch(i, Direction::Up, back, desc) + self.order_branch(
                i,
                Direction::Left,
                back,
                desc,
            ) + seq![i as usize]
        } else {
            Seq::empty()
        }
    }

    /// The part of `order_from(i, back, desc)` that lies in direction `d`
    /// of node `i`.
    pub open spec fn order_branch(&self, i: int, d: Direction, back: Option<Direction>, desc: bool) -> Seq<
        usize,
    >
        decreases
                (if desc {
                    0int
                } else {
                    1int
                }),
                (if desc {
                    self.len() - i
                } else {
                    i
                }),
                0int,
    {
        if back == Some(d) || !(0 <= i < self.len()) {
            Seq::empty()
        } else {
            match self.link(i, d) {
                None => Seq::empty(),
                Some(j) => {
                    if (j as int) < i {
                        if desc {
                            Seq::empty()
                        } else {
                            self.order_from(j as int, Some(d.opposite()), false)
                        }
                    } else if i < (j as int) < self.len() {
                        self.order_from(j as int, Some(d.opposite()), true)
                    } else {
                        Seq::empty()
                    }
                },
            }
        }
    }

    /// Appends `order_from(i, back, desc)` to `out`.
    fn dfs(&self, i: usize, back: Option<Direction>, desc: bool, out: &mut Vec<usize>)
        requires
            self.wf(),
            i < self.len(),
        ensures
            final(out)@ == old(out)@ + self.order_from(i as int, back, desc),
        decreases
                (if desc {
                    0int
                } else {
                    1int
                }),
                (if desc {
                    self.len() - i
                } else {
                    i as int
                }),
                1int,
    {
        let ghost start = out@;
        let ghost br = self.order_branch(i as int, Direction::Right, back, desc);
        let ghost bd = self.order_branch(i as int, Direction::Down, back, desc);
        let ghost bu = self.order_branch(i as int, Direction::Up, back, desc);
        let ghost bl = self.order_branch(i as int, Direction::Left, back, desc);
        assert(self.order_from(i as int, back, desc) == br + bd + bu + bl + seq![i]);
        self.dfs_branch(i, Direction::Right, back, desc, out);
        self.dfs_branch(i, Direction::Down, back, desc, out);
        self.dfs_branch(i, Direction::Up, back, desc, out);
        self.dfs_branch(i, Direction::Left, back, desc, out);
        out.push(i);
        assert(out@ =~= start + (br + bd + bu + bl + seq![i]));
    }

    /// Appends `order_branch(i, d, back, desc)` to `out`.
    fn dfs_branch(&self, i: usize, d: Direction, back: Option<Direction>, desc: bool, out: &mut Vec<usize>)
        requires
            self.wf(),
            i < self.len(),
        ensures
            final(out)@ == old(out)@ + self.order_branch(i as int, d, back, desc),
        decreases
                (if desc {
                    0int
                } else {
                    1int
                }),
                (if desc {
                    self.len() - i
                } else {
                    i as int
                }),
                0int,
    {
        let skip = match back {
            Some(b) => b == d,
            None => false,
        };
        if skip {
            assert(out@ =~= old(out)@ + self.order_branch(i as int, d, back, desc));
            return;
        }
        match self.nodes[i].get_neighbour(d) {
            None => {
                assert(out@ =~= old(out)@ + self.order_branch(i as int, d, back, desc));
            },
            Some(j) => {
                if j < i {
                    if !desc {
                        self.dfs(j, Some(d.reverse()), false, out);
                    } else {
                        assert(out@ =~= old(out)@ + self.order_branch(i as int, d, back, desc));
                    }
                } else if i < j && j < self.nodes.len() {
                    self.dfs(j, Some(d.reverse()), true, out);
                } else {
                    assert(out@ =~= old(out)@ + self.order_branch(i as int, d, back, desc));
                }
            },
        }
    }

    /// The order in which `render` draws the objects: a traversal from the
    /// current node.
    pub open spec fn draw_order(&self) -> Seq<usize> {
        match self.cur() {
            Some(c) => self.order_from(c as int, None, false),
            None => Seq::empty(),
        }
    }

    /// The indices of the objects in the order in which they are drawn:
    /// every object exactly once.
    pub fn render_order(&self) -> (v: Vec<usize>)
        requires
            self.wf(),
        ensures
            v@ == self.draw_order(),
            v@.no_duplicates(),
            forall|x: usize| #[trigger] v@.contains(x) <==> x < self.len(),
    {
        proof {
            self.lemma_draw_order_complete();
        }
        let mut out: Vec<usize> = Vec::new();
        match self.current {
            Some(c) => {
                self.dfs(c, None, false, &mut out);
                assert(out@ =~= self.draw_order());
            },
            None => {},
        }
        out
    }

    /// The object at index `i`.
    pub fn get(&self, i: usize) -> (o: &T)
        requires
            i < self.len(),
        ensures
            *o == self.obj(i as int),
    {
        &self.nodes[i].obj
    }
}

/// Facts about concatenated sequences of indices.
proof fn lemma_concat(a: Seq<usize>, b: Seq<usize>)
    ensures
        forall|x: usize| #[trigger] (a + b).contains(x) <==> a.contains(x) || b.contains(x),
        a.no_duplicates() && b.no_duplicates() && (forall|x: usize| a.contains(x) ==> !b.contains(x))
            ==> (a + b).no_duplicates(),
{
    broadcast use vstd::seq_lib::lemma_seq_concat_contains_all_elements;

    if a.no_duplicates() && b.no_duplicates() && (forall|x: usize| a.contains(x) ==> !b.contains(x)) {
        assert forall|i: int, j: int| 0 <= i < a.len() && 0 <= j < b.len() implies a[i] != b[j] by {
            assert(a.contains(a[i]));
            assert(b.contains(b[j]));
        }
        vstd::seq_lib::lemma_no_dup_in_concat(a, b);
    }
}

impl<T> UITree<T> {
    /// Node `k` lies in the subtree of node `a`: `a` is `k` or one of its
    /// ancestors.
    spec fn in_subtree(&self, a: int, k: int) -> bool
        decreases k,
    {
        if 0 <= k < self.len() {
            if k == a {
                true
            } else if 0 < k && 0 <= self.parent(k) < k {
                self.in_subtree(a, self.parent(k))
            } else {
                false
            }
        } else {
            false
        }
    }

    /// Node `k` is reached from node `i` through its link in direction `e`:
    /// for the link to the parent, every node outside the subtree of `i`;
    /// for a link to a child, the nodes of the child's subtree.
    spec fn branch_has(&self, i: int, e: Direction, k: int) -> bool {
        match self.link(i, e) {
            Some(j) => {
                if (j as int) < i {
                    0 <= k < self.len() && !self.in_subtree(i, k)
                } else {
                    self.in_subtree(j as int, k)
                }
            },
            None => false,
        }
    }

    /// The ways a traversal can stand at node `i`: from the start
    /// (`back` is `None`), from the parent (`desc`), or from a child.
    spec fn entry_ok(&self, i: int, back: Option<Direction>, desc: bool) -> bool {
        &&& 0 <= i < self.len()
        &&& desc ==> (0 < i && back == Some(self.pdir(i)))
        &&& (!desc && back is Some) ==> (self.link(i, back->0) is Some && self.link(i, back->0)->0 > i)
    }

    proof fn lemma_subtree_bounds(&self, a: int, k: int)
        requires
            self.in_subtree(a, k),
        ensures
            a <= k,
            0 <= k < self.len(),
        decreases k,
    {
        if k != a {
            self.lemma_subtree_bounds(a, self.parent(k));
        }
    }

    proof fn lemma_root_covers(&self, k: int)
        requires
            self.wf(),
            0 <= k < self.len(),
        ensures
            self.in_subtree(0, k),
        decreases k,
    {
        if k != 0 {
            assert(self.has_parent(k));
            self.lemma_root_covers(self.parent(k));
        }
    }

    /// The link from a node to a later node leads to a child, whose parent
    /// lies back the opposite way.
    proof fn lemma_child_link(&self, i: int, e: Direction)
        requires
            self.wf(),
            0 <= i < self.len(),
            self.link(i, e) is Some,
            self.link(i, e)->0 > i,
        ensures
            ({
                let j = self.link(i, e)->0 as int;
                &&& self.pdir(j) == e.opposite()
                &&& self.parent(j) == i
                &&& 0 < j < self.len()
            }),
    {
        let j = self.link(i, e)->0 as int;
        assert(self.link(j, e.opposite()) == Some(i as usize));
        assert(self.has_parent(j));
        if self.pdir(j) != e.opposite() {
            assert(self.link(j, self.pdir(j)) is Some);
            assert(self.link(j, e.opposite()) is Some);
        }
    }

    /// The link from a node to an earlier node leads to its parent.
    proof fn lemma_parent_link(&self, i: int, e: Direction)
        requires
            self.wf(),
            0 <= i < self.len(),
            self.link(i, e) is Some,
            self.link(i, e)->0 < i,
        ensures
            e == self.pdir(i),
            0 < i,
    {
        assert(self.has_parent(i));
        if e != self.pdir(i) {
            assert(self.link(i, self.pdir(i)) is Some);
            assert(self.link(i, e) is Some);
        }
    }

    proof fn lemma_subtree_step(&self, c: int, i: int, k: int)
        requires
            self.wf(),
            0 < c < self.len(),
            self.parent(c) == i,
            self.in_subtree(c, k),
        ensures
            self.in_subtree(i, k),
        decreases k,
    {
        assert(self.has_parent(c));
        if k == c {
            assert(self.in_subtree(i, i));
        } else {
            self.lemma_subtree_step(c, i, self.parent(k));
        }
    }

    proof fn lemma_split(&self, i: int, k: int) -> (c: int)
        requires
            self.wf(),
            self.in_subtree(i, k),
            k != i,
        ensures
            0 < c < self.len(),
            self.parent(c) == i,
            self.in_subtree(c, k),
        decreases k,
    {
        let q = self.parent(k);
        if q == i {
            k
        } else {
            let c = self.lemma_split(i, q);
            c
        }
    }

    proof fn lemma_chain(&self, a: int, b: int, k: int)
        requires
            self.in_subtree(a, k),
            self.in_subtree(b, k),
        ensures
            self.in_subtree(a, b) || self.in_subtree(b, a),
        decreases k,
    {
        if k != a && k != b {
            self.lemma_chain(a, b, self.parent(k));
        }
    }

    /// Node `i` is not reached from itself through any of its links.
    proof fn lemma_partition_self(&self, i: int, e: Direction)
        requires
            self.wf(),
            0 <= i < self.len(),
        ensures
            !self.branch_has(i, e, i),
    {
        if let Some(j) = self.link(i, e) {
            if (j as int) > i {
                if self.in_subtree(j as int, i) {
                    self.lemma_subtree_bounds(j as int, i);
                }
            }
        }
    }

    /// Every node but `i` is reached from `i` through one of its links.
    proof fn lemma_partition_exists(&self, i: int, k: int)
        requires
            self.wf(),
            0 <= i < self.len(),
            0 <= k < self.len(),
            k != i,
        ensures
            self.branch_has(i, Direction::Right, k) || self.branch_has(i, Direction::Down, k)
                || self.branch_has(i, Direction::Up, k) || self.branch_has(i, Direction::Left, k),
    {
        if self.in_subtree(i, k) {
            let c = self.lemma_split(i, k);
            assert(self.has_parent(c));
            let e = self.pdir(c).opposite();
            lemma_opposite_involutive(self.pdir(c));
            assert(self.link(c, self.pdir(c)) == Some(i as usize));
            assert(self.link(i, e) == Some(c as usize));
            assert(self.branch_has(i, e, k));
            match e {
                Direction::Right => {},
                Direction::Down => {},
                Direction::Up => {},
                Direction::Left => {},
            }
        } else {
            if i == 0 {
                self.lemma_root_covers(k);
            }
            assert(self.has_parent(i));
            let e = self.pdir(i);
            assert(self.branch_has(i, e, k));
            match e {
                Direction::Right => {},
                Direction::Down => {},
                Direction::Up => {},
                Direction::Left => {},
            }
        }
    }

    /// No node is reached from `i` through two of its links.
    proof fn lemma_partition_unique(&self, i: int, k: int, e1: Direction, e2: Direction)
        requires
            self.wf(),
            0 <= i < self.len(),
            e1 != e2,
        ensures
            !(self.branch_has(i, e1, k) && self.branch_has(i, e2, k)),
    {
        if self.branch_has(i, e1, k) && self.branch_has(i, e2, k) {
            let j1 = self.link(i, e1)->0 as int;
            let j2 = self.link(i, e2)->0 as int;
            assert(self.link(i, e1) is Some);
            assert(self.link(i, e2) is Some);
            if j1 < i && j2 < i {
                self.lemma_parent_link(i, e1);
                self.lemma_parent_link(i, e2);
            } else if j1 < i {
                self.lemma_child_link(i, e2);
                self.lemma_subtree_step(j2, i, k);
            } else if j2 < i {
                self.lemma_child_link(i, e1);
                self.lemma_subtree_step(j1, i, k);
            } else {
                self.lemma_child_link(i, e1);
                self.lemma_child_link(i, e2);
                assert(j1 != j2);
                self.lemma_chain(j1, j2, k);
                if self.in_subtree(j1, j2) {
                    assert(self.has_parent(j2));
                    self.lemma_subtree_bounds(j1, i);
                } else {
                    assert(self.has_parent(j1));
                    self.lemma_subtree_bounds(j2, i);
                }
            }
        }
    }

    /// What the part of a traversal in direction `e` of node `i` holds.
    proof fn lemma_order_branch(&self, i: int, e: Direction, back: Option<Direction>, desc: bool)
        requires
            self.wf(),
            self.entry_ok(i, back, desc),
        ensures
            self.order_branch(i, e, back, desc).no_duplicates(),
            forall|x: usize|
                #[trigger] self.order_branch(i, e, back, desc).contains(x) <==> (back != Some(e)
                    && self.branch_has(i, e, x as int)),
        decreases
                (if desc {
                    0int
                } else {
                    1int
                }),
                (if desc {
                    self.len() - i
                } else {
                    i
                }),
                0int,
    {
        if back == Some(e) {
            return;
        }
        match self.link(i, e) {
            None => {},
            Some(j) => {
                let j = j as int;
                lemma_opposite_involutive(e);
                assert(self.link(j, e.opposite()) == Some(i as usize));
                if j < i {
                    self.lemma_parent_link(i, e);
                    assert(!desc);
                    self.lemma_order_from(j, Some(e.opposite()), false);
                    assert(forall|x: usize| self.branch_has(j, e.opposite(), x as int) == self.in_subtree(i, x as int));
                    assert forall|x: usize| self.in_subtree(i, x as int) implies x < self.len() by {
                        self.lemma_subtree_bounds(i, x as int);
                    }
                } else {
                    self.lemma_child_link(i, e);
                    self.lemma_order_from(j, Some(e.opposite()), true);
                    assert forall|x: usize| self.in_subtree(j, x as int) implies x < self.len() by {
                        self.lemma_subtree_bounds(j, x as int);
                    }
                }
            },
        }
    }

    /// A traversal standing at node `i` visits every node once, except
    /// those reached through the direction it came from.
    proof fn lemma_order_from(&self, i: int, back: Option<Direction>, desc: bool)
        requires
            self.wf(),
            self.entry_ok(i, back, desc),
        ensures
            self.order_from(i, back, desc).no_duplicates(),
            forall|x: usize|
                #[trigger] self.order_from(i, back, desc).contains(x) <==> (x < self.len() && !(back
                    matches Some(b) && self.branch_has(i, b, x as int))),
        decreases
                (if desc {
                    0int
                } else {
                    1int
                }),
                (if desc {
                    self.len() - i
                } else {
                    i
                }),
                1int,
    {
        let br = self.order_branch(i, Direction::Right, back, desc);
        let bd = self.order_branch(i, Direction::Down, back, desc);
        let bu = self.order_branch(i, Direction::Up, back, desc);
        let bl = self.order_branch(i, Direction::Left, back, desc);
        let last = seq![i as usize];
        self.lemma_order_branch(i, Direction::Right, back, desc);
        self.lemma_order_branch(i, Direction::Down, back, desc);
        self.lemma_order_branch(i, Direction::Up, back, desc);
        self.lemma_order_branch(i, Direction::Left, back, desc);
        assert forall|x: usize| #[trigger] br.contains(x) || bd.contains(x) || bu.contains(x) || bl.contains(x)
            implies x < self.len() && x != i as usize by {
            if br.contains(x) { self.lemma_branch_bound(i, Direction::Right, x as int); }
            if bd.contains(x) { self.lemma_branch_bound(i, Direction::Down, x as int); }
            if bu.contains(x) { self.lemma_branch_bound(i, Direction::Up, x as int); }
            if bl.contains(x) { self.lemma_branch_bound(i, Direction::Left, x as int); }
            if x as int == i {
                self.lemma_partition_self(i, Direction::Right);
                self.lemma_partition_self(i, Direction::Down);
                self.lemma_partition_self(i, Direction::Up);
                self.lemma_partition_self(i, Direction::Left);
            }
        }
        assert forall|x: usize| br.contains(x) implies !bd.contains(x) && !bu.contains(x) && !bl.contains(x) by {
            self.lemma_partition_unique(i, x as int, Direction::Right, Direction::Down);
            self.lemma_partition_unique(i, x as int, Direction::Right, Direction::Up);
            self.lemma_partition_unique(i, x as int, Direction::Right, Direction::Left);
        }
        assert forall|x: usize| bd.contains(x) implies !bu.contains(x) && !bl.contains(x) by {
            self.lemma_partition_unique(i, x as int, Direction::Down, Direction::Up);
            self.lemma_partition_unique(i, x as int, Direction::Down, Direction::Left);
        }
        assert forall|x: usize| bu.contains(x) implies !bl.contains(x) by {
            self.lemma_partition_unique(i, x as int, Direction::Up, Direction::Left);
        }
        assert forall|x: usize| x < self.len() && x as int != i && !(back matches Some(b) && self.branch_has(i, b, x as int))
            implies br.contains(x) || bd.contains(x) || bu.contains(x) || bl.contains(x) by {
            self.lemma_partition_exists(i, x as int);
        }
        assert forall|x: usize| #[trigger] br.contains(x) || bd.contains(x) || bu.contains(x) || bl.contains(x)
            implies !(back matches Some(b) && self.branch_has(i, b, x as int)) by {
            if let Some(b) = back {
                if b != Direction::Right {
                    self.lemma_partition_unique(i, x as int, Direction::Right, b);
                }
                if b != Direction::Down {
                    self.lemma_partition_unique(i, x as int, Direction::Down, b);
                }
                if b != Direction::Up {
                    self.lemma_partition_unique(i, x as int, Direction::Up, b);
                }
                if b != Direction::Left {
                    self.lemma_partition_unique(i, x as int, Direction::Left, b);
                }
            }
        }
        if let Some(b) = back {
            self.lemma_partition_self(i, b);
        }
        assert(last[0] == i as usize);
        assert(last.contains(i as usize));
        assert(forall|x: usize| last.contains(x) ==> x == i as usize);
        lemma_concat(br, bd);
        lemma_concat(br + bd, bu);
        lemma_concat(br + bd + bu, bl);
        lemma_concat(br + bd + bu + bl, last);
        assert(self.order_from(i, back, desc) == br + bd + bu + bl + last);
    }

    proof fn lemma_branch_bound(&self, i: int, e: Direction, k: int)
        requires
            self.branch_has(i, e, k),
        ensures
            0 <= k < self.len(),
    {
        let j = self.link(i, e)->0 as int;
        if j >= i {
            self.lemma_subtree_bounds(j, k);
        }
    }

    /// Drawing visits every object of a well-formed tree exactly once.
    pub proof fn lemma_draw_order_complete(&self)
        requires
            self.wf(),
        ensures
            self.draw_order().no_duplicates(),
            forall|x: usize| #[trigger] self.draw_order().contains(x) <==> x < self.len(),
    {
        if let Some(c) = self.current {
            self.lemma_order_from(c as int, None, false);
        }
    }
}

impl<T> UITree<T> {
    /// Every link is matched by a link back: after moving the focus one way,
    /// moving it the opposite way returns to where it was.
    pub proof fn lemma_move_dir_undo(&self, i: int, dir: Direction)
        requires
            self.wf(),
            0 <= i < self.len(),
            self.link(i, dir) is Some,
        ensures
            0 <= self.link(i, dir)->0 < self.len(),
            self.link(self.link(i, dir)->0 as int, dir.opposite()) == Some(i as usize),
    {
    }
}

impl<T> UITree<T> {
    /// The shape of every well-formed tree: a current node exactly when the
    /// tree is not empty; every link in range and matched by the opposite
    /// link back; every node but the first linked to exactly one earlier node
    /// (its parent, in direction `pdir`), and the first to none. So the links
    /// form a tree: connected, without cycles.
    pub proof fn lemma_wf_structure(&self)
        requires
            self.wf(),
        ensures
            self.cur() is Some <==> self.len() > 0,
            self.cur() matches Some(c) ==> c < self.len(),
            forall|i: int, d: Direction|
                0 <= i < self.len() && (#[trigger] self.link(i, d)) is Some ==> {
                    &&& 0 <= self.link(i, d)->0 < self.len()
                    &&& self.link(i, d)->0 != i
                    &&& self.link(self.link(i, d)->0 as int, d.opposite()) == Some(i as usize)
                },
            forall|i: int| 0 < i < self.len() ==> #[trigger] self.link(i, self.pdir(i)) is Some
                && self.link(i, self.pdir(i))->0 < i,
            forall|i: int, d: Direction|
                0 <= i < self.len() && (#[trigger] self.link(i, d)) is Some && !(0 < i && d == self.pdir(i))
                    ==> self.link(i, d)->0 > i,
    {
        assert forall|i: int| 0 < i < self.len() implies #[trigger] self.link(i, self.pdir(i)) is Some
            && self.link(i, self.pdir(i))->0 < i by {
            assert(self.has_parent(i));
        }
        assert forall|i: int, d: Direction|
            0 <= i < self.len() && (#[trigger] self.link(i, d)) is Some && !(0 < i && d == self.pdir(i))
                implies self.link(i, d)->0 > i by {
            if self.link(i, d)->0 < i {
                self.lemma_parent_link(i, d);
            }
        }
    }
}

impl<T: UIObject> UITree<T> {
    /// Where an object is inserted: at a node without a neighbour in the
    /// direction in which the object lies from that node's object.
    pub proof fn lemma_insert_placement(&self, area: Rect)
        requires
            self.wf(),
        ensures
            self.insert_target(area) matches Some((p, d)) ==> {
                &&& 0 <= p < self.len()
                &&& self.link(p as int, d) is None
                &&& d == spec_direction(self.obj(p as int).area(), area)
            },
    {
        if let Some(c) = self.current {
            self.lemma_slot_from(c as int, area, None, false);
        }
    }
}

impl<T: UIObject> UITree<T> {
    /// The direction in which `area` lies from the object at node `i`.
    pub open spec fn dir_to(&self, i: int, area: Rect) -> Direction {
        spec_direction(self.obj(i).area(), area)
    }

    /// `path` is a way through the tree that starts at the current node and
    /// at each node steps to the existing neighbour in the direction in
    /// which `area` lies from that node's object, never stepping straight
    /// back to the node it came from.
    pub open spec fn is_search_path(&self, area: Rect, path: Seq<int>) -> bool {
        &&& path.len() >= 1
        &&& self.cur() == Some(path[0] as usize)
        &&& forall|m: int| 0 <= m < path.len() ==> 0 <= #[trigger] path[m] < self.len()
        &&& forall|m: int|
            0 <= m < path.len() - 1 ==> self.link(#[trigger] path[m], self.dir_to(path[m], area))
                == Some(path[m + 1] as usize)
        &&& forall|m: int| 0 < m < path.len() - 1 ==> #[trigger] path[m + 1] != path[m - 1]
    }

    /// Insertion follows existing links as far as they lead, towards the
    /// root as well as away from it, and attaches the object at the first
    /// free slot: whenever such a path ends at a node without a neighbour in
    /// the object's direction, the object can be inserted, and it is
    /// attached there, in that direction.
    pub proof fn lemma_search_path_finds_slot(&self, area: Rect, path: Seq<int>)
        requires
            self.wf(),
            self.is_search_path(area, path),
            self.link(path.last(), self.dir_to(path.last(), area)) is None,
        ensures
            self.insert_target(area) == Some((path.last() as usize, self.dir_to(path.last(), area))),
            self.can_place(area),
    {
        self.lemma_search_suffix(area, path, 0);
    }

    proof fn lemma_search_suffix(&self, area: Rect, path: Seq<int>, m: int)
        requires
            self.wf(),
            self.is_search_path(area, path),
            self.link(path.last(), self.dir_to(path.last(), area)) is None,
            0 <= m < path.len(),
        ensures
            self.slot_from(
                path[m],
                area,
                if m == 0 {
                    None
                } else {
                    Some(self.dir_to(path[m - 1], area).opposite())
                },
                m > 0 && path[m - 1] < path[m],
            ) == Some((path.last() as usize, self.dir_to(path.last(), area))),
        decreases path.len() - m,
    {
        let i = path[m];
        let d = self.dir_to(i, area);
        let back = if m == 0 {
            None
        } else {
            Some(self.dir_to(path[m - 1], area).opposite())
        };
        let desc = m > 0 && path[m - 1] < path[m];
        assert(0 <= path[m] < self.len());
        if m > 0 {
            let prev = path[m - 1];
            let e = self.dir_to(prev, area);
            assert(0 <= path[m - 1] < self.len());
            assert(self.link(path[m - 1], self.dir_to(path[m - 1], area)) == Some(path[m] as usize));
            assert(self.link(i, e.opposite()) == Some(prev as usize)) by {
                lemma_opposite_involutive(e);
            }
        }
        if m == path.len() - 1 {
            if m > 0 {
                let e = self.dir_to(path[m - 1], area);
                if d == e.opposite() {
                    assert(self.link(i, d) is Some);
                }
            }
            assert(back != Some(d));
        } else {
            let j = path[m + 1];
            assert(0 <= path[m + 1] < self.len());
            assert(self.link(path[m], self.dir_to(path[m], area)) == Some(path[m + 1] as usize));
            assert(self.link(i, d) == Some(j as usize));
            if m > 0 {
                let prev = path[m - 1];
                let e = self.dir_to(prev, area);
                if d == e.opposite() {
                    assert(path[m + 1] != path[m - 1]);
                }
                assert(back != Some(d));
                if j < i && desc {
                    assert(self.link(i, e.opposite()) is Some);
                    assert(self.link(i, d) is Some);
                    assert(false);
                }
            }
            assert(j != i);
            self.lemma_search_suffix(area, path, m + 1);
            assert(self.dir_to(path[m + 1 - 1], area) == d);
        }
    }
}

/// The place of a direction in the drawing order of a node's branches:
/// right, down, up, left.
pub open spec fn draw_rank(d: Direction) -> int {
    match d {
        Direction::Right => 0,
        Direction::Down => 1,
        Direction::Up => 2,
        Direction::Left => 3,
    }
}

impl<T> UITree<T> {
    /// In `s`, whenever two neighbours of a node come before it, the one in
    /// the earlier direction (by `draw_rank`) comes first.
    #[verifier::opaque]
    spec fn siblings_ordered(&self, s: Seq<usize>) -> bool {
        forall|p: int, q: int, r: int, e1: Direction, e2: Direction|
            #![trigger s[p], s[q], self.link(s[r] as int, e1), self.link(s[r] as int, e2)]
            0 <= p < r && 0 <= q < r && r < s.len() && draw_rank(e1) < draw_rank(e2) && self.link(
                s[r] as int,
                e1,
            ) == Some(s[p]) && self.link(s[r] as int, e2) == Some(s[q]) ==> p < q
    }

    /// Where the branch in direction `e` starts within `order_from`.
    spec fn branch_offset(&self, i: int, e: Direction, back: Option<Direction>, desc: bool) -> int {
        let lr = self.order_branch(i, Direction::Right, back, desc).len() as int;
        let ld = self.order_branch(i, Direction::Down, back, desc).len() as int;
        let lu = self.order_branch(i, Direction::Up, back, desc).len() as int;
        match e {
            Direction::Right => 0,
            Direction::Down => lr,
            Direction::Up => lr + ld,
            Direction::Left => lr + ld + lu,
        }
    }

    proof fn lemma_layout(&self, i: int, back: Option<Direction>, desc: bool)
        requires
            0 <= i < self.len(),
        ensures
            ({
                let s = self.order_from(i, back, desc);
                &&& s.len() == self.branch_offset(i, Direction::Left, back, desc) + self.order_branch(
                    i,
                    Direction::Left,
                    back,
                    desc,
                ).len() + 1
                &&& s[s.len() - 1] == i as usize
                &&& forall|e: Direction, t: int|
                    0 <= t < self.order_branch(i, e, back, desc).len() ==> s[self.branch_offset(
                        i,
                        e,
                        back,
                        desc,
                    ) + t] == #[trigger] self.order_branch(i, e, back, desc)[t]
                &&& forall|e1: Direction, e2: Direction|
                    draw_rank(e1) < draw_rank(e2) ==> #[trigger] self.branch_offset(i, e1, back, desc)
                        + self.order_branch(i, e1, back, desc).len() <= #[trigger] self.branch_offset(
                        i,
                        e2,
                        back,
                        desc,
                    )
                &&& forall|e: Direction| 0 <= #[trigger] self.branch_offset(i, e, back, desc)
            }),
    {
        let br = self.order_branch(i, Direction::Right, back, desc);
        let bd = self.order_branch(i, Direction::Down, back, desc);
        let bu = self.order_branch(i, Direction::Up, back, desc);
        let bl = self.order_branch(i, Direction::Left, back, desc);
        let s = self.order_from(i, back, desc);
        assert(s == br + bd + bu + bl + seq![i as usize]);
        assert forall|e: Direction, t: int|
            0 <= t < self.order_branch(i, e, back, desc).len() implies s[self.branch_offset(
            i,
            e,
            back,
            desc,
        ) + t] == #[trigger] self.order_branch(i, e, back, desc)[t] by {
            match e {
                Direction::Right => {},
                Direction::Down => {},
                Direction::Up => {},
                Direction::Left => {},
            }
        }
    }

    /// A node reached from `i` through a branch has all its neighbours but
    /// `i` in the same branch.
    proof fn lemma_adjacent_same_branch(&self, i: int, e: Direction, v: int, f: Direction)
        requires
            self.wf(),
            0 <= i < self.len(),
            self.branch_has(i, e, v),
            v != i,
            self.link(v, f) is Some,
            self.link(v, f)->0 != i,
        ensures
            self.branch_has(i, e, self.link(v, f)->0 as int),
    {
        let j = self.link(i, e)->0 as int;
        let a = self.link(v, f)->0 as int;
        self.lemma_branch_bound(i, e, v);
        assert(0 <= a < self.len());
        if a > v {
            self.lemma_child_link(v, f);
            assert(self.has_parent(a));
        } else {
            self.lemma_parent_link(v, f);
            assert(self.has_parent(v));
            assert(self.parent(v) == a);
        }
        if j > i {
            self.lemma_child_link(i, e);
            if a > v {
                assert(self.in_subtree(j, a));
            } else {
                if v == j {
                    assert(a == i);
                }
                assert(self.in_subtree(j, a));
            }
        } else {
            if a > v {
                if self.in_subtree(i, a) {
                    assert(self.in_subtree(i, v));
                }
            } else {
                if self.in_subtree(i, a) {
                    assert(self.in_subtree(i, v));
                }
            }
        }
    }

    /// A node of a branch sits inside that branch's part of `order_from`.
    proof fn lemma_locate(&self, i: int, back: Option<Direction>, desc: bool, e: Direction, p: int)
        requires
            self.wf(),
            self.entry_ok(i, back, desc),
            0 <= p < self.order_from(i, back, desc).len(),
            self.order_branch(i, e, back, desc).contains(self.order_from(i, back, desc)[p]),
        ensures
            self.branch_offset(i, e, back, desc) <= p < self.branch_offset(i, e, back, desc)
                + self.order_branch(i, e, back, desc).len(),
    {
        let s = self.order_from(i, back, desc);
        let b = self.order_branch(i, e, back, desc);
        self.lemma_order_from(i, back, desc);
        self.lemma_layout(i, back, desc);
        let t = choose|t: int| 0 <= t < b.len() && b[t] == s[p];
        assert(b[t] == s[p]);
        assert(s[self.branch_offset(i, e, back, desc) + t] == b[t]);
    }

    proof fn lemma_siblings_branch(&self, i: int, e: Direction, back: Option<Direction>, desc: bool)
        requires
            self.wf(),
            self.entry_ok(i, back, desc),
        ensures
            self.siblings_ordered(self.order_branch(i, e, back, desc)),
        decreases
                (if desc {
                    0int
                } else {
                    1int
                }),
                (if desc {
                    self.len() - i
                } else {
                    i
                }),
                0int,
    {
        reveal(UITree::siblings_ordered);
        if back == Some(e) {
            return;
        }
        match self.link(i, e) {
            None => {},
            Some(j) => {
                let j = j as int;
                lemma_opposite_involutive(e);
                assert(self.link(j, e.opposite()) == Some(i as usize));
                if j < i {
                    self.lemma_parent_link(i, e);
                    self.lemma_siblings_from(j, Some(e.opposite()), false);
                } else {
                    self.lemma_child_link(i, e);
                    self.lemma_siblings_from(j, Some(e.opposite()), true);
                }
            },
        }
    }

    proof fn lemma_siblings_from(&self, i: int, back: Option<Direction>, desc: bool)
        requires
            self.wf(),
            self.entry_ok(i, back, desc),
        ensures
            self.siblings_ordered(self.order_from(i, back, desc)),
        decreases
                (if desc {
                    0int
                } else {
                    1int
                }),
                (if desc {
                    self.len() - i
                } else {
                    i
                }),
                1int,
    {
        let s = self.order_from(i, back, desc);
        self.lemma_siblings_branch(i, Direction::Right, back, desc);
        self.lemma_siblings_branch(i, Direction::Down, back, desc);
        self.lemma_siblings_branch(i, Direction::Up, back, desc);
        self.lemma_siblings_branch(i, Direction::Left, back, desc);
        assert(forall|e: Direction| self.siblings_ordered(#[trigger] self.order_branch(i, e, back, desc))) by {
            assert forall|e: Direction| self.siblings_ordered(#[trigger] self.order_branch(i, e, back, desc)) by {
                match e {
                    Direction::Right => {},
                    Direction::Down => {},
                    Direction::Up => {},
                    Direction::Left => {},
                }
            }
        }
        reveal(UITree::siblings_ordered);
        assert forall|p: int, q: int, r: int, e1: Direction, e2: Direction|
            0 <= p < r && 0 <= q < r && r < s.len() && draw_rank(e1) < draw_rank(e2) && #[trigger] self.link(
                s[r] as int,
                e1,
            ) == Some(#[trigger] s[p]) && #[trigger] self.link(s[r] as int, e2) == Some(#[trigger] s[q])
            implies p < q by {
            if r == s.len() - 1 {
                self.lemma_siblings_at_root(i, back, desc, p, q, r, e1, e2);
            } else {
                self.lemma_siblings_inside(i, back, desc, p, q, r, e1, e2);
            }
        }
    }

    /// Two neighbours of `i` drawn before it come in the order of their
    /// directions.
    proof fn lemma_siblings_at_root(
        &self,
        i: int,
        back: Option<Direction>,
        desc: bool,
        p: int,
        q: int,
        r: int,
        e1: Direction,
        e2: Direction,
    )
        requires
            self.wf(),
            self.entry_ok(i, back, desc),
            0 <= p < r,
            0 <= q < r,
            r == self.order_from(i, back, desc).len() - 1,
            draw_rank(e1) < draw_rank(e2),
            self.link(self.order_from(i, back, desc)[r] as int, e1) == Some(
                self.order_from(i, back, desc)[p],
            ),
            self.link(self.order_from(i, back, desc)[r] as int, e2) == Some(
                self.order_from(i, back, desc)[q],
            ),
        ensures
            p < q,
    {
        let s = self.order_from(i, back, desc);
        self.lemma_layout(i, back, desc);
        self.lemma_order_from(i, back, desc);
        self.lemma_order_branch(i, e1, back, desc);
        self.lemma_order_branch(i, e2, back, desc);
        let a = s[p];
        let b = s[q];
        assert(s.contains(a));
        assert(s.contains(b));
        self.lemma_link_in_branch(i, e1);
        self.lemma_link_in_branch(i, e2);
        assert(self.order_branch(i, e1, back, desc).contains(a));
        assert(self.order_branch(i, e2, back, desc).contains(b));
        self.lemma_locate(i, back, desc, e1, p);
        self.lemma_locate(i, back, desc, e2, q);
        assert(self.branch_offset(i, e1, back, desc) + self.order_branch(i, e1, back, desc).len()
            <= self.branch_offset(i, e2, back, desc));
    }

    /// For a node drawn within a branch of `i`, the order of its neighbours
    /// is that within the branch.
    proof fn lemma_siblings_inside(
        &self,
        i: int,
        back: Option<Direction>,
        desc: bool,
        p: int,
        q: int,
        r: int,
        e1: Direction,
        e2: Direction,
    )
        requires
            self.wf(),
            self.entry_ok(i, back, desc),
            forall|e: Direction| self.siblings_ordered(#[trigger] self.order_branch(i, e, back, desc)),
            0 <= p < r,
            0 <= q < r,
            r < self.order_from(i, back, desc).len() - 1,
            draw_rank(e1) < draw_rank(e2),
            self.link(self.order_from(i, back, desc)[r] as int, e1) == Some(
                self.order_from(i, back, desc)[p],
            ),
            self.link(self.order_from(i, back, desc)[r] as int, e2) == Some(
                self.order_from(i, back, desc)[q],
            ),
        ensures
            p < q,
    {
        let s = self.order_from(i, back, desc);
        let e = self.branch_at(i, back, desc, r);
        let seg = self.order_branch(i, e, back, desc);
        let off = self.branch_offset(i, e, back, desc);
        self.lemma_neighbour_in_segment(i, back, desc, e, r, p, e1);
        self.lemma_neighbour_in_segment(i, back, desc, e, r, q, e2);
        assert(self.siblings_ordered(seg));
        self.lemma_inside_finish(i, back, desc, e, p, q, r, e1, e2);
    }

    proof fn lemma_inside_finish(
        &self,
        i: int,
        back: Option<Direction>,
        desc: bool,
        e: Direction,
        p: int,
        q: int,
        r: int,
        e1: Direction,
        e2: Direction,
    )
        requires
            0 <= i < self.len(),
            self.siblings_ordered(self.order_branch(i, e, back, desc)),
            self.branch_offset(i, e, back, desc) <= p < r,
            self.branch_offset(i, e, back, desc) <= q < r,
            r < self.branch_offset(i, e, back, desc) + self.order_branch(i, e, back, desc).len(),
            draw_rank(e1) < draw_rank(e2),
            self.link(self.order_from(i, back, desc)[r] as int, e1) == Some(
                self.order_from(i, back, desc)[p],
            ),
            self.link(self.order_from(i, back, desc)[r] as int, e2) == Some(
                self.order_from(i, back, desc)[q],
            ),
        ensures
            p < q,
    {
        let s = self.order_from(i, back, desc);
        let seg = self.order_branch(i, e, back, desc);
        let off = self.branch_offset(i, e, back, desc);
        self.lemma_segment_index(i, back, desc, e, p - off);
        self.lemma_segment_index(i, back, desc, e, q - off);
        self.lemma_segment_index(i, back, desc, e, r - off);
        self.lemma_use_siblings(seg, p - off, q - off, r - off, e1, e2, s[p], s[q], s[r]);
    }

    proof fn lemma_segment_index(&self, i: int, back: Option<Direction>, desc: bool, e: Direction, t: int)
        requires
            0 <= i < self.len(),
            0 <= t < self.order_branch(i, e, back, desc).len(),
        ensures
            self.order_from(i, back, desc)[self.branch_offset(i, e, back, desc) + t] == self.order_branch(
                i,
                e,
                back,
                desc,
            )[t],
    {
        self.lemma_layout(i, back, desc);
    }

    proof fn lemma_use_siblings(
        &self,
        s: Seq<usize>,
        p: int,
        q: int,
        r: int,
        e1: Direction,
        e2: Direction,
        xp: usize,
        xq: usize,
        xr: usize,
    )
        requires
            self.siblings_ordered(s),
            0 <= p < r,
            0 <= q < r,
            r < s.len(),
            s[p] == xp,
            s[q] == xq,
            s[r] == xr,
            draw_rank(e1) < draw_rank(e2),
            self.link(xr as int, e1) == Some(xp),
            self.link(xr as int, e2) == Some(xq),
        ensures
            p < q,
    {
        reveal(UITree::siblings_ordered);
    }

    /// A neighbour drawn before a node of a branch of `i` is drawn within
    /// that branch's part.
    proof fn lemma_neighbour_in_segment(
        &self,
        i: int,
        back: Option<Direction>,
        desc: bool,
        e: Direction,
        r: int,
        p: int,
        f: Direction,
    )
        requires
            self.wf(),
            self.entry_ok(i, back, desc),
            0 <= p < r,
            r < self.order_from(i, back, desc).len() - 1,
            self.branch_offset(i, e, back, desc) <= r < self.branch_offset(i, e, back, desc)
                + self.order_branch(i, e, back, desc).len(),
            self.link(self.order_from(i, back, desc)[r] as int, f) == Some(
                self.order_from(i, back, desc)[p],
            ),
        ensures
            self.branch_offset(i, e, back, desc) <= p < self.branch_offset(i, e, back, desc)
                + self.order_branch(i, e, back, desc).len(),
    {
        let s = self.order_from(i, back, desc);
        let last = s.len() - 1;
        let seg = self.order_branch(i, e, back, desc);
        let off = self.branch_offset(i, e, back, desc);
        self.lemma_layout(i, back, desc);
        self.lemma_order_from(i, back, desc);
        self.lemma_order_branch(i, e, back, desc);
        let v = s[r] as int;
        let a = s[p];
        assert(seg[r - off] == s[r]);
        assert(seg.contains(s[r]));
        assert(self.branch_has(i, e, v));
        assert(back != Some(e));
        assert(s[last] == i as usize);
        assert(a != i as usize);
        assert(s[r] != s[last]);
        self.lemma_adjacent_same_branch(i, e, v, f);
        assert(seg.contains(a));
        self.lemma_locate(i, back, desc, e, p);
    }

    /// The neighbour of `i` in direction `e` lies in branch `e`.
    proof fn lemma_link_in_branch(&self, i: int, e: Direction)
        requires
            self.wf(),
            0 <= i < self.len(),
            self.link(i, e) is Some,
        ensures
            self.branch_has(i, e, self.link(i, e)->0 as int),
    {
        let j = self.link(i, e)->0 as int;
        if j < i {
            if self.in_subtree(i, j) {
                self.lemma_subtree_bounds(i, j);
            }
        } else {
            assert(0 <= j < self.len());
            assert(self.in_subtree(j, j));
        }
    }

    /// The branch whose part of `order_from` holds position `r`.
    proof fn branch_at(&self, i: int, back: Option<Direction>, desc: bool, r: int) -> (e: Direction)
        requires
            0 <= i < self.len(),
            0 <= r < self.order_from(i, back, desc).len() - 1,
        ensures
            self.branch_offset(i, e, back, desc) <= r < self.branch_offset(i, e, back, desc)
                + self.order_branch(i, e, back, desc).len(),
    {
        self.lemma_layout(i, back, desc);
        if r < self.branch_offset(i, Direction::Down, back, desc) {
            Direction::Right
        } else if r < self.branch_offset(i, Direction::Up, back, desc) {
            Direction::Down
        } else if r < self.branch_offset(i, Direction::Left, back, desc) {
            Direction::Up
        } else {
            Direction::Left
        }
    }

    /// In the drawing order, whenever two neighbours of an object are drawn
    /// before it, the one to its right comes before the one below, which
    /// comes before the one above, which comes before the one to its left.
    pub proof fn lemma_draw_order_siblings(&self)
        requires
            self.wf(),
        ensures
            forall|p: int, q: int, r: int, e1: Direction, e2: Direction|
                #![trigger self.draw_order()[p], self.draw_order()[q], self.link(self.draw_order()[r] as int, e1), self.link(self.draw_order()[r] as int, e2)]
                0 <= p < r && 0 <= q < r && r < self.draw_order().len() && draw_rank(e1) < draw_rank(e2)
                    && self.link(self.draw_order()[r] as int, e1) == Some(self.draw_order()[p])
                    && self.link(self.draw_order()[r] as int, e2) == Some(self.draw_order()[q]) ==> p < q,
    {
        reveal(UITree::siblings_ordered);
        if let Some(c) = self.cur() {
            self.lemma_siblings_from(c as int, None, false);
        }
    }
}

impl<T> UITree<T> {
    /// In `s`, no node comes before two of its neighbours.
    #[verifier::opaque]
    spec fn after_all_but_one(&self, s: Seq<usize>) -> bool {
        forall|r: int, p1: int, p2: int, f1: Direction, f2: Direction|
            #![trigger s[p1], s[p2], self.link(s[r] as int, f1), self.link(s[r] as int, f2)]
            0 <= r < p1 < s.len() && r < p2 < s.len() && f1 != f2 && self.link(s[r] as int, f1) == Some(
                s[p1],
            ) ==> self.link(s[r] as int, f2) != Some(s[p2])
    }

    /// A node of branch `e` of `i` that is linked to `i` is the neighbour of
    /// `i` in direction `e`.
    proof fn lemma_neighbour_of_root(&self, i: int, e: Direction, v: int, f: Direction)
        requires
            self.wf(),
            0 <= i < self.len(),
            self.branch_has(i, e, v),
            self.link(v, f) == Some(i as usize),
        ensures
            self.link(i, e) == Some(v as usize),
    {
        self.lemma_branch_bound(i, e, v);
        lemma_opposite_involutive(f);
        assert(self.link(i, f.opposite()) == Some(v as usize));
        self.lemma_link_in_branch(i, f.opposite());
        if e != f.opposite() {
            self.lemma_partition_unique(i, v, e, f.opposite());
        }
    }

    /// No node has two links to the same node.
    proof fn lemma_no_double_link(&self, v: int, f1: Direction, f2: Direction)
        requires
            self.wf(),
            0 <= v < self.len(),
            f1 != f2,
            self.link(v, f1) is Some,
        ensures
            self.link(v, f1) != self.link(v, f2),
    {
        let a = self.link(v, f1)->0 as int;
        if self.link(v, f1) != self.link(v, f2) {
        } else if a < v {
            self.lemma_parent_link(v, f1);
            self.lemma_parent_link(v, f2);
        } else {
            self.lemma_child_link(v, f1);
            self.lemma_child_link(v, f2);
        }
    }

    proof fn lemma_post_branch(&self, i: int, e: Direction, back: Option<Direction>, desc: bool)
        requires
            self.wf(),
            self.entry_ok(i, back, desc),
        ensures
            self.after_all_but_one(self.order_branch(i, e, back, desc)),
        decreases
                (if desc {
                    0int
                } else {
                    1int
                }),
                (if desc {
                    self.len() - i
                } else {
                    i
                }),
                0int,
    {
        reveal(UITree::after_all_but_one);
        if back == Some(e) {
            return;
        }
        match self.link(i, e) {
            None => {},
            Some(j) => {
                let j = j as int;
                lemma_opposite_involutive(e);
                assert(self.link(j, e.opposite()) == Some(i as usize));
                if j < i {
                    self.lemma_parent_link(i, e);
                    self.lemma_post_from(j, Some(e.opposite()), false);
                } else {
                    self.lemma_child_link(i, e);
                    self.lemma_post_from(j, Some(e.opposite()), true);
                }
            },
        }
    }

    /// The last node of a branch's part of `order_from` is the neighbour of
    /// `i` in that direction.
    proof fn lemma_branch_last(&self, i: int, e: Direction, back: Option<Direction>, desc: bool)
        requires
            self.wf(),
            self.entry_ok(i, back, desc),
            self.order_branch(i, e, back, desc).len() > 0,
        ensures
            self.link(i, e) is Some,
            self.order_branch(i, e, back, desc).last() == self.link(i, e)->0,
    {
        let j = self.link(i, e)->0 as int;
        assert(self.link(i, e) is Some);
        assert(0 <= j < self.len());
        if j < i {
            self.lemma_layout(j, Some(e.opposite()), false);
        } else {
            self.lemma_layout(j, Some(e.opposite()), true);
        }
    }

    proof fn lemma_post_from(&self, i: int, back: Option<Direction>, desc: bool)
        requires
            self.wf(),
            self.entry_ok(i, back, desc),
        ensures
            self.after_all_but_one(self.order_from(i, back, desc)),
        decreases
                (if desc {
                    0int
                } else {
                    1int
                }),
                (if desc {
                    self.len() - i
                } else {
                    i
                }),
                1int,
    {
        let s = self.order_from(i, back, desc);
        self.lemma_post_branch(i, Direction::Right, back, desc);
        self.lemma_post_branch(i, Direction::Down, back, desc);
        self.lemma_post_branch(i, Direction::Up, back, desc);
        self.lemma_post_branch(i, Direction::Left, back, desc);
        assert(forall|e: Direction| self.after_all_but_one(#[trigger] self.order_branch(i, e, back, desc))) by {
            assert forall|e: Direction| self.after_all_but_one(#[trigger] self.order_branch(i, e, back, desc)) by {
                match e {
                    Direction::Right => {},
                    Direction::Down => {},
                    Direction::Up => {},
                    Direction::Left => {},
                }
            }
        }
        reveal(UITree::after_all_but_one);
        assert forall|r: int, p1: int, p2: int, f1: Direction, f2: Direction|
            0 <= r < p1 < s.len() && r < p2 < s.len() && f1 != f2 && #[trigger] self.link(s[r] as int, f1)
                == Some(#[trigger] s[p1]) implies #[trigger] self.link(s[r] as int, f2) != Some(
            #[trigger] s[p2],
        ) by {
            self.lemma_post_step(i, back, desc, r, p1, p2, f1, f2);
        }
    }

    proof fn lemma_post_step(
        &self,
        i: int,
        back: Option<Direction>,
        desc: bool,
        r: int,
        p1: int,
        p2: int,
        f1: Direction,
        f2: Direction,
    )
        requires
            self.wf(),
            self.entry_ok(i, back, desc),
            forall|e: Direction| self.after_all_but_one(#[trigger] self.order_branch(i, e, back, desc)),
            0 <= r < p1 < self.order_from(i, back, desc).len(),
            r < p2 < self.order_from(i, back, desc).len(),
            f1 != f2,
            self.link(self.order_from(i, back, desc)[r] as int, f1) == Some(
                self.order_from(i, back, desc)[p1],
            ),
        ensures
            self.link(self.order_from(i, back, desc)[r] as int, f2) != Some(
                self.order_from(i, back, desc)[p2],
            ),
    {
        let s = self.order_from(i, back, desc);
        if self.link(s[r] as int, f2) != Some(s[p2]) {
            return;
        }
        self.lemma_layout(i, back, desc);
        let e = self.branch_at(i, back, desc, r);
        let seg = self.order_branch(i, e, back, desc);
        let off = self.branch_offset(i, e, back, desc);
        let last = s.len() - 1;
        self.lemma_order_from(i, back, desc);
        self.lemma_order_branch(i, e, back, desc);
        let v = s[r] as int;
        self.lemma_segment_index(i, back, desc, e, r - off);
        assert(seg.contains(s[r]));
        assert(self.branch_has(i, e, v));
        assert(s[last] == i as usize);
        assert(s[r] != s[last]);
        assert(0 <= v < self.len());
        if s[p1] == s[p2] {
            self.lemma_no_double_link(v, f1, f2);
        }
        if s[p1] == i as usize || s[p2] == i as usize {
            let (f, pother) = if s[p1] == i as usize {
                (f1, p2)
            } else {
                (f2, p1)
            };
            self.lemma_neighbour_of_root(i, e, v, f);
            self.lemma_branch_last(i, e, back, desc);
            self.lemma_segment_index(i, back, desc, e, seg.len() - 1);
            assert(r == off + seg.len() - 1);
            let g = if s[p1] == i as usize {
                f2
            } else {
                f1
            };
            assert(self.link(v, g) == Some(s[pother]));
            assert(s[pother] != i as usize);
            self.lemma_adjacent_same_branch(i, e, v, g);
            assert(seg.contains(s[pother]));
            self.lemma_locate(i, back, desc, e, pother);
        } else {
            self.lemma_adjacent_same_branch(i, e, v, f1);
            self.lemma_adjacent_same_branch(i, e, v, f2);
            assert(seg.contains(s[p1]));
            assert(seg.contains(s[p2]));
            self.lemma_locate(i, back, desc, e, p1);
            self.lemma_locate(i, back, desc, e, p2);
            self.lemma_post_finish(i, back, desc, e, r, p1, p2, f1, f2);
        }
    }

    proof fn lemma_post_finish(
        &self,
        i: int,
        back: Option<Direction>,
        desc: bool,
        e: Direction,
        r: int,
        p1: int,
        p2: int,
        f1: Direction,
        f2: Direction,
    )
        requires
            0 <= i < self.len(),
            self.after_all_but_one(self.order_branch(i, e, back, desc)),
            self.branch_offset(i, e, back, desc) <= r < p1,
            r < p2,
            p1 < self.branch_offset(i, e, back, desc) + self.order_branch(i, e, back, desc).len(),
            p2 < self.branch_offset(i, e, back, desc) + self.order_branch(i, e, back, desc).len(),
            f1 != f2,
            self.link(self.order_from(i, back, desc)[r] as int, f1) == Some(
                self.order_from(i, back, desc)[p1],
            ),
        ensures
            self.link(self.order_from(i, back, desc)[r] as int, f2) != Some(
                self.order_from(i, back, desc)[p2],
            ),
    {
        let s = self.order_from(i, back, desc);
        let seg = self.order_branch(i, e, back, desc);
        let off = self.branch_offset(i, e, back, desc);
        self.lemma_segment_index(i, back, desc, e, p1 - off);
        self.lemma_segment_index(i, back, desc, e, p2 - off);
        self.lemma_segment_index(i, back, desc, e, r - off);
        self.lemma_use_post(seg, r - off, p1 - off, p2 - off, f1, f2, s[r], s[p1], s[p2]);
    }

    proof fn lemma_use_post(
        &self,
        s: Seq<usize>,
        r: int,
        p1: int,
        p2: int,
        f1: Direction,
        f2: Direction,
        xr: usize,
        x1: usize,
        x2: usize,
    )
        requires
            self.after_all_but_one(s),
            0 <= r < p1 < s.len(),
            r < p2 < s.len(),
            s[r] == xr,
            s[p1] == x1,
            s[p2] == x2,
            f1 != f2,
            self.link(xr as int, f1) == Some(x1),
        ensures
            self.link(xr as int, f2) != Some(x2),
    {
        reveal(UITree::after_all_but_one);
    }

    /// The drawing order ends with the current object, and every object is
    /// drawn after all of its neighbours but at most one (the one on the way
    /// to the current object).
    pub proof fn lemma_draw_order_post(&self)
        requires
            self.wf(),
        ensures
            self.cur() matches Some(c) ==> self.draw_order().len() > 0 && self.draw_order().last() == c,
            forall|r: int, p1: int, p2: int, f1: Direction, f2: Direction|
                #![trigger self.draw_order()[p1], self.draw_order()[p2], self.link(self.draw_order()[r] as int, f1), self.link(self.draw_order()[r] as int, f2)]
                0 <= r < p1 < self.draw_order().len() && r < p2 < self.draw_order().len() && f1 != f2
                    && self.link(self.draw_order()[r] as int, f1) == Some(self.draw_order()[p1])
                    ==> self.link(self.draw_order()[r] as int, f2) != Some(self.draw_order()[p2]),
    {
        reveal(UITree::after_all_but_one);
        if let Some(c) = self.cur() {
            self.lemma_post_from(c as int, None, false);
            self.lemma_layout(c as int, None, false);
        }
    }
}

} // verus!
