//! Geometry containers: points, polylines and their classification tags.
//!
//! Coordinates are IEEE-754 bit patterns carried as `u64`; the containers
//! themselves never interpret them.

use vstd::prelude::*;

verus! {

/// A 2D point; both coordinates are 64-bit patterns.
#[derive(Debug, Clone, Copy, PartialEq, Eq, Structural)]
pub struct Point2 {
    /// The x coordinate of this point.
    pub x: u64,
    /// The y coordinate of this point.
    pub y: u64,
}

impl Point2 {
    /// Create a new point from the given coordinates.
    pub fn new(x: u64, y: u64) -> (p: Self)
        ensures
            p == (Point2 { x, y }),
    {
        Point2 { x, y }
    }
}

/// A 3D point (2D plus height).
#[derive(Debug, Clone, Copy, PartialEq, Eq, Structural)]
pub struct Point3 {
    /// The x coordinate of this point.
    pub x: u64,
    /// The y coordinate of this point.
    pub y: u64,
    /// The z coordinate of this point (height).
    pub z: u64,
}

impl Point3 {
    /// Create a new point from the given coordinates.
    pub fn new(x: u64, y: u64, z: u64) -> (p: Self)
        ensures
            p == (Point3 { x, y, z }),
    {
        Point3 { x, y, z }
    }
}

/// Whether a classification marks an intermediate (form line) contour.
pub open spec fn spec_is_intermed(c: Classification) -> bool {
    ||| c is ContourIntermed
    ||| c is ContourIndexIntermed
    ||| c is DepressionIntermed
    ||| c is DepressionIndexIntermed
}

/// A collection of points, each with a classification that also names
/// the layer the point is drawn into.
#[derive(Debug, Clone)]
pub struct Points {
    points: Vec<Point2>,
    classification: Vec<Classification>,
}

impl Points {
    /// One classification per point.
    pub closed spec fn wf(self) -> bool {
        self.points@.len() == self.classification@.len()
    }

    /// The points and their classifications, paired up.
    pub closed spec fn pairs(self) -> Seq<(Point2, Classification)> {
        Seq::new(self.points@.len(), |i: int| (self.points@[i], self.classification@[i]))
    }

    pub fn new() -> (r: Self)
        ensures
            r.wf(),
            r.pairs() == Seq::<(Point2, Classification)>::empty(),
    {
        let r = Points { points: Vec::new(), classification: Vec::new() };
        proof {
            assert(r.pairs() =~= Seq::<(Point2, Classification)>::empty());
        }
        r
    }

    pub fn with_capacity(capacity: usize) -> (r: Self)
        ensures
            r.wf(),
            r.pairs() == Seq::<(Point2, Classification)>::empty(),
    {
        let r = Points {
            points: Vec::with_capacity(capacity),
            classification: Vec::with_capacity(capacity),
        };
        proof {
            assert(r.pairs() =~= Seq::<(Point2, Classification)>::empty());
        }
        r
    }

    pub fn len(&self) -> (n: usize)
        requires
            self.wf(),
        ensures
            n == self.pairs().len(),
    {
        self.points.len()
    }

    /// Add a point to this collection.
    pub fn push(&mut self, point: Point2, class: Classification)
        requires
            old(self).wf(),
        ensures
            final(self).wf(),
            final(self).pairs() == old(self).pairs().push((point, class)),
    {
        self.points.push(point);
        self.classification.push(class);
        proof {
            assert(self.pairs() =~= old(self).pairs().push((point, class)));
        }
    }

    /// Borrow the points and their classifications side by side.
    pub fn iter(&self) -> (r: (&Vec<Point2>, &Vec<Classification>))
        requires
            self.wf(),
        ensures
            r.0@.len() == self.pairs().len(),
            r.1@.len() == self.pairs().len(),
            forall|i: int|
                0 <= i < self.pairs().len() ==> #[trigger] self.pairs()[i] == (r.0@[i], r.1@[i]),
    {
        (&self.points, &self.classification)
    }
}

/// A collection of polylines, each with an associated classification.
#[derive(Debug, Clone)]
pub struct Polylines<P, C> {
    polylines: Vec<Vec<P>>,
    classification: Vec<C>,
}

impl<P, C> Polylines<P, C> {
    /// One classification per polyline.
    pub closed spec fn wf(self) -> bool {
        self.polylines@.len() == self.classification@.len()
    }

    /// The polylines of this collection.
    pub closed spec fn lines(self) -> Seq<Vec<P>> {
        self.polylines@
    }

    /// The classifications of this collection, one per polyline.
    pub closed spec fn classes(self) -> Seq<C> {
        self.classification@
    }

    pub fn new() -> (r: Self)
        ensures
            r.wf(),
            r.lines() == Seq::<Vec<P>>::empty(),
            r.classes() == Seq::<C>::empty(),
    {
        Polylines { polylines: Vec::new(), classification: Vec::new() }
    }

    pub fn with_capacity(capacity: usize) -> (r: Self)
        ensures
            r.wf(),
            r.lines() == Seq::<Vec<P>>::empty(),
            r.classes() == Seq::<C>::empty(),
    {
        Polylines {
            polylines: Vec::with_capacity(capacity),
            classification: Vec::with_capacity(capacity),
        }
    }

    pub fn push(&mut self, polyline: Vec<P>, class: C)
        requires
            old(self).wf(),
        ensures
            final(self).wf(),
            final(self).lines() == old(self).lines().push(polyline),
            final(self).classes() == old(self).classes().push(class),
    {
        self.polylines.push(polyline);
        self.classification.push(class);
    }

    /// The polylines and their classifications, paired up.
    pub closed spec fn pairs(self) -> Seq<(Vec<P>, C)> {
        Seq::new(self.polylines@.len(), |i: int| (self.polylines@[i], self.classification@[i]))
    }

    /// The pairs are the polylines and classifications side by side.
    pub proof fn lemma_pairs(self)
        requires
            self.wf(),
        ensures
            self.pairs().len() == self.lines().len(),
            forall|i: int|
                0 <= i < self.pairs().len() ==> #[trigger] self.pairs()[i] == (
                    self.lines()[i],
                    self.classes()[i],
                ),
    {
    }

    /// Appending a polyline appends its pair.
    pub proof fn lemma_pairs_push(self, prev: Self, line: Vec<P>, class: C)
        requires
            prev.wf(),
            self.lines() == prev.lines().push(line),
            self.classes() == prev.classes().push(class),
        ensures
            self.pairs() =~= prev.pairs().push((line, class)),
    {
    }

    /// The polylines and their classifications, owned.
    pub fn into_parts(self) -> (r: (Vec<Vec<P>>, Vec<C>))
        ensures
            r.0@ == self.lines(),
            r.1@ == self.classes(),
    {
        let Polylines { polylines, classification } = self;
        (polylines, classification)
    }

    /// One classification per polyline.
    pub proof fn lemma_wf_lens(self)
        requires
            self.wf(),
        ensures
            self.lines().len() == self.classes().len(),
    {
    }

    /// Borrow the polylines and their classifications side by side.
    pub fn iter(&self) -> (r: (&Vec<Vec<P>>, &Vec<C>))
        ensures
            r.0@ == self.lines(),
            r.1@ == self.classes(),
    {
        (&self.polylines, &self.classification)
    }

    pub fn len(&self) -> (n: usize)
        requires
            self.wf(),
        ensures
            n == self.lines().len(),
    {
        self.polylines.len()
    }
}

/// A bounding box of world coordinates, as 64-bit patterns.
#[derive(Debug, Clone, Copy, PartialEq, Eq, Structural)]
pub struct Bounds {
    pub xmin: u64,
    pub xmax: u64,
    pub ymin: u64,
    pub ymax: u64,
}

impl Bounds {
    pub fn new(xmin: u64, xmax: u64, ymin: u64, ymax: u64) -> (b: Self)
        ensures
            b == (Bounds { xmin, xmax, ymin, ymax }),
    {
        Bounds { xmin, xmax, ymin, ymax }
    }
}

/// The three kinds of geometry a container can hold.
#[derive(Debug, Clone)]
pub enum Geometry {
    Points(Points),
    /// 2D polylines with a classification.
    Polylines2(Polylines<Point2, Classification>),
    /// 2D polylines with a height, the third coordinate.
    Polylines3(Polylines<Point3, (Classification, u64)>),
}

/// The versioned envelope the vector stack is stored in. A file whose
/// version differs from the producing program's is stale and rejected
/// on load.
#[derive(Debug)]
pub struct BinaryDxf {
    /// The version of the program that created this container.
    version: String,
    bounds: Bounds,
    data: Vec<Geometry>,
}

/// The program version written into every container.
pub fn program_version() -> (v: &'static str)
    ensures
        v@ == spec_program_version(),
{
    "0.1.0"
}

/// The character sequence of the program version.
pub open spec fn spec_program_version() -> Seq<char> {
    "0.1.0"@
}

impl BinaryDxf {
    /// The version string carried by this container.
    pub closed spec fn spec_version(self) -> Seq<char> {
        self.version@
    }

    /// The bounds carried by this container.
    pub closed spec fn spec_bounds(self) -> Bounds {
        self.bounds
    }

    /// The geometry carried by this container.
    pub closed spec fn spec_data(self) -> Seq<Geometry> {
        self.data@
    }

    /// A container stamped with the current program version.
    pub fn new(bounds: Bounds, data: Vec<Geometry>) -> (r: Self)
        ensures
            r.spec_version() == spec_program_version(),
            r.spec_bounds() == bounds,
            r.spec_data() == data@,
    {
        BinaryDxf { version: program_version().to_string(), bounds, data }
    }

    /// A container as read back from storage, carrying whatever
    /// version the file held.
    pub fn from_parts(version: String, bounds: Bounds, data: Vec<Geometry>) -> (r: Self)
        ensures
            r.spec_version() == version@,
            r.spec_bounds() == bounds,
            r.spec_data() == data@,
    {
        BinaryDxf { version, bounds, data }
    }

    /// The parts of this container: version, bounds and geometry.
    pub fn into_parts(self) -> (r: (String, Bounds, Vec<Geometry>))
        ensures
            r.0@ == self.spec_version(),
            r.1 == self.spec_bounds(),
            r.2@ == self.spec_data(),
    {
        let BinaryDxf { version, bounds, data } = self;
        (version, bounds, data)
    }

    pub fn bounds(&self) -> (b: &Bounds)
        ensures
            *b == self.spec_bounds(),
    {
        &self.bounds
    }

    /// The geometry in this container.
    pub fn take_geometry(self) -> (r: Vec<Geometry>)
        ensures
            r@ == self.spec_data(),
    {
        self.data
    }
}

/// Classification of a geometry entity; decides the layer the entity is
/// drawn into. Must stay a single byte.
#[derive(Debug, Clone, Copy, PartialEq, Eq, Structural)]
pub enum Classification {
    /// Used in the first contour generation step
    ContourSimple,

    /// Used in the second contour generation step (smoothjoin)
    Contour,
    ContourIndex,
    ContourIntermed,
    ContourIndexIntermed,

    Depression,
    DepressionIndex,
    DepressionIntermed,
    DepressionIndexIntermed,

    /// Used in dotknoll detection
    Dotknoll,
    Udepression,
    UglyDotknoll,
    UglyUdepression,

    /// Used for cliff generation
    Cliff2,
    Cliff3,
    Cliff4,
}

impl Classification {
    /// The layer name of each classification, as a character sequence.
    pub open spec fn spec_layer(self) -> Seq<char> {
        match self {
            Self::ContourSimple => "cont"@,

            Self::Contour => "contour"@,
            Self::ContourIndex => "contour_index"@,
            Self::ContourIntermed => "contour_intermed"@,
            Self::ContourIndexIntermed => "contour_index_intermed"@,

            Self::Depression => "depression"@,
            Self::DepressionIndex => "depression_index"@,
            Self::DepressionIntermed => "depression_intermed"@,
            Self::DepressionIndexIntermed => "depression_index_intermed"@,

            Self::Dotknoll => "dotknoll"@,
            Self::Udepression => "udepression"@,
            Self::UglyDotknoll => "uglydotknoll"@,
            Self::UglyUdepression => "uglyudepression"@,

            Self::Cliff2 => "cliff2"@,
            Self::Cliff3 => "cliff3"@,
            Self::Cliff4 => "cliff4"@,
        }
    }

    /// Get the layer name for this classification.
    pub fn to_layer(&self) -> (r: &'static str)
        ensures
            r@ == self.spec_layer(),
    {
        match self {
            Self::ContourSimple => "cont",

            Self::Contour => "contour",
            Self::ContourIndex => "contour_index",
            Self::ContourIntermed => "contour_intermed",
            Self::ContourIndexIntermed => "contour_index_intermed",

            Self::Depression => "depression",
            Self::DepressionIndex => "depression_index",
            Self::DepressionIntermed => "depression_intermed",
            Self::DepressionIndexIntermed => "depression_index_intermed",

            Self::Dotknoll => "dotknoll",
            Self::Udepression => "udepression",
            Self::UglyDotknoll => "uglydotknoll",
            Self::UglyUdepression => "uglyudepression",

            Self::Cliff2 => "cliff2",
            Self::Cliff3 => "cliff3",
            Self::Cliff4 => "cliff4",
        }
    }

    /// Whether this is one of the four plain contour classes of the
    /// second generation step.
    pub fn is_contour(&self) -> (r: bool)
        ensures
            r == (self is Contour || self is ContourIndex || self is ContourIntermed
                || self is ContourIndexIntermed),
    {
        matches!(
            self,
            Self::Contour | Self::ContourIndex | Self::ContourIntermed | Self::ContourIndexIntermed
        )
    }

    /// Whether this is one of the four depression classes.
    pub fn is_depression(&self) -> (r: bool)
        ensures
            r == (self is Depression || self is DepressionIndex || self is DepressionIntermed
                || self is DepressionIndexIntermed),
    {
        matches!(
            self,
            Self::Depression
                | Self::DepressionIndex
                | Self::DepressionIntermed
                | Self::DepressionIndexIntermed
        )
    }

    /// Whether this class marks an index contour.
    pub fn is_index(&self) -> (r: bool)
        ensures
            r == (self is ContourIndex || self is ContourIndexIntermed || self is DepressionIndex
                || self is DepressionIndexIntermed),
    {
        matches!(
            self,
            Self::ContourIndex
                | Self::ContourIndexIntermed
                | Self::DepressionIndex
                | Self::DepressionIndexIntermed
        )
    }

    /// Whether this class marks an intermediate (form line) contour.
    pub fn is_intermed(&self) -> (r: bool)
        ensures
            r == spec_is_intermed(*self),
    {
        matches!(
            self,
            Self::ContourIntermed
                | Self::ContourIndexIntermed
                | Self::DepressionIntermed
                | Self::DepressionIndexIntermed
        )
    }
}

} // verus!
