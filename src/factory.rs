use vstd::prelude::*;
use crate::grid::Grid;
use crate::pathfinding::{AStarCardinal, search_fits};

verus! {

/// Builds tile maps.
pub trait GridFactory {
    fn create(&self, width: usize, height: usize) -> (r: Grid)
        requires
            width * height <= usize::MAX,
        ensures
            r.wf(),
            r.width == width,
            r.height == height,
            forall|x: int, y: int|
                0 <= x < width && 0 <= y < height ==> !#[trigger] r.blocked(x, y),
    ;
}

/// Builds empty rectangular maps.
pub struct RectangularGridFactory;

impl RectangularGridFactory {
    /// An empty `width` x `height` map.
    pub fn new(width: usize, height: usize) -> (r: Grid)
        requires
            width * height <= usize::MAX,
        ensures
            r.wf(),
            r.width == width,
            r.height == height,
            forall|x: int, y: int|
                0 <= x < width && 0 <= y < height ==> !#[trigger] r.blocked(x, y),
    {
        Grid::new(width, height)
    }
}

impl GridFactory for RectangularGridFactory {
    fn create(&self, width: usize, height: usize) -> (r: Grid) {
        RectangularGridFactory::new(width, height)
    }
}

/// The parts of a four-neighbour simulation: rectangular maps and A* with
/// cardinal moves.
pub struct CardinalSimulationFactory {
    grid_factory: RectangularGridFactory,
}

impl CardinalSimulationFactory {
    pub fn new() -> (r: Self) {
        Self { grid_factory: RectangularGridFactory }
    }

    /// An empty map, built by the rectangular grid factory.
    pub fn create_grid(&self, width: usize, height: usize) -> (r: Grid)
        requires
            width * height <= usize::MAX,
        ensures
            r.wf(),
            r.width == width,
            r.height == height,
            forall|x: int, y: int|
                0 <= x < width && 0 <= y < height ==> !#[trigger] r.blocked(x, y),
    {
        self.grid_factory.create(width, height)
    }

    /// The planner of this simulation.
    pub fn create_pathfinder(&self) -> (r: AStarCardinal) {
        AStarCardinal
    }
}

/// What the start-up steps fill in.
pub struct InitContext {
    pub grid: Option<Grid>,
    pub factory: Option<CardinalSimulationFactory>,
    pub width: usize,
    pub height: usize,
}

/// Start-up step that picks the simulation's factory.
pub struct ConfigInitHandler;

impl ConfigInitHandler {
    pub fn new() -> (r: Self) {
        ConfigInitHandler
    }

    /// Chooses the four-neighbour simulation.
    pub fn handle(&mut self, context: &mut InitContext)
        ensures
            final(context).factory is Some,
            final(context).grid == old(context).grid,
            final(context).width == old(context).width,
            final(context).height == old(context).height,
    {
        context.factory = Some(CardinalSimulationFactory::new());
    }
}

/// Start-up step that builds the map with the chosen factory.
pub struct GridInitHandler;

impl GridInitHandler {
    pub fn new() -> (r: Self) {
        GridInitHandler
    }

    /// Builds an empty map of the context's size once a factory is chosen.
    pub fn handle(&mut self, context: &mut InitContext)
        requires
            old(context).width * old(context).height <= usize::MAX,
        ensures
            final(context).factory == old(context).factory,
            final(context).width == old(context).width,
            final(context).height == old(context).height,
            old(context).factory is None ==> final(context).grid == old(context).grid,
            old(context).factory is Some ==> (final(context).grid matches Some(g) && g.wf() && g.width
                == old(context).width && g.height == old(context).height && forall|x: int, y: int|
                0 <= x < g.width && 0 <= y < g.height ==> !#[trigger] g.blocked(x, y)),
    {
        match &context.factory {
            Some(f) => {
                let g = f.create_grid(context.width, context.height);
                context.grid = Some(g);
            },
            None => {},
        }
    }
}

/// Runs the start-up steps in order: choose the factory, then build the map.
pub fn init_system(width: usize, height: usize) -> (r: InitContext)
    requires
        width * height <= usize::MAX,
    ensures
        r.width == width,
        r.height == height,
        r.factory is Some,
        r.grid matches Some(g) && g.wf() && g.width == width && g.height == height && forall|
            x: int,
            y: int,
        | 0 <= x < width && 0 <= y < height ==> !#[trigger] g.blocked(x, y),
{
    let mut ctx = InitContext { grid: None, factory: None, width, height };
    let mut step1 = ConfigInitHandler::new();
    let mut step2 = GridInitHandler::new();
    step1.handle(&mut ctx);
    step2.handle(&mut ctx);
    ctx
}

} // verus!
