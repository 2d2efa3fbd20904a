//! Game logic of a collection of small arcade games ("bits"): maze generation,
//! sliding puzzles, code breaking, pair matching, quizzes and the scoring and
//! progression rules of the reflex games. Rendering, input and timing stand
//! around this library; every decision they take is made here.

pub mod geometry;
pub mod random;
pub mod shuffle;
pub mod ribbit;
pub mod maze;
pub mod puzzle15;
pub mod master_mind;
pub mod memoji;
pub mod math_quiz;
pub mod whack_a_mole;
pub mod tower_tumble;
pub mod shapes;
pub mod shape_matcher;
pub mod shape_memorizer;
pub mod shape_masher;
pub mod shape_grabber;
pub mod marble_dropper;
pub mod shape_finder;
pub mod wheres_waldo;
pub mod shape_sidescroller;
pub mod shape_shooter;
pub mod match3;
pub mod maze_game;
pub mod gem_sprites;
