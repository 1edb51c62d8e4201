//! The data of one question of an input file, and how a parse stops short.
use vstd::prelude::*;

verus! {

/// A point of a question. Each coordinate is kept as the decimal literal that
/// the file wrote for it (an optional sign, digits, at most one dot); the
/// literal is what `str::parse::<f64>` turns into the coordinate.
#[derive(Debug, Clone)]
pub struct Point3 {
    /// x coordinate, domain [-1, 1].
    pub x: String,
    /// y coordinate, domain [-1, 1].
    pub y: String,
    /// z coordinate, unbounded.
    pub z: String,
}

/// The coordinate literals of a point.
pub struct PointModel {
    pub x: Seq<char>,
    pub y: Seq<char>,
    pub z: Seq<char>,
}

impl View for Point3 {
    type V = PointModel;

    open spec fn view(&self) -> PointModel {
        PointModel { x: self.x@, y: self.y@, z: self.z@ }
    }
}

/// One question: its id, points, connection groups and window size.
#[derive(Debug, Clone)]
pub struct Question {
    /// Question id (any string).
    pub id: String,
    /// The points.
    pub points: Vec<Point3>,
    /// Groups of point indices joined by lines (the file spells it `connets`).
    pub connets: Vec<Vec<usize>>,
    /// Window width in pixels.
    pub width: usize,
    /// Window height in pixels.
    pub height: usize,
}

pub struct QuestionModel {
    pub id: Seq<char>,
    pub points: Seq<PointModel>,
    pub connets: Seq<Seq<usize>>,
    pub width: usize,
    pub height: usize,
}

impl View for Question {
    type V = QuestionModel;

    open spec fn view(&self) -> QuestionModel {
        QuestionModel {
            id: self.id@,
            points: self.points@.map_values(|p: Point3| p@),
            connets: self.connets@.map_values(|g: Vec<usize>| g@),
            width: self.width,
            height: self.height,
        }
    }
}

/// The view of a list of questions.
pub open spec fn questions_view(qs: Seq<Question>) -> Seq<QuestionModel> {
    qs.map_values(|q: Question| q@)
}

/// Why a parse stopped: a rejection with its message, or a scan that would
/// read past the end of the text (an out-of-bounds index, which panics).
#[derive(Debug)]
pub enum Halt {
    Rejected(String),
    Overrun,
}

pub enum HaltModel {
    Rejected(Seq<char>),
    Overrun,
}

impl View for Halt {
    type V = HaltModel;

    open spec fn view(&self) -> HaltModel {
        match self {
            Halt::Rejected(m) => HaltModel::Rejected(m@),
            Halt::Overrun => HaltModel::Overrun,
        }
    }
}

} // verus!
