use pathtracer::image::Image;
use pathtracer::scheduler::{Command, Dispatch, DispatchError, Scheduler, TileResult};
use pathtracer::tiles::{ConfigError, Tile};

fn block(side: usize, shade: u8) -> Vec<[u8; 3]> {
    (0..side * side).map(|i| [shade, (i % 256) as u8, 7]).collect()
}

/// Runs a whole render in which workers answer in the order given by
/// `pick`, returning every stored result's tile and the finished image.
fn run(
    width: usize,
    height: usize,
    side: usize,
    workers: usize,
    pick: fn(&[Tile]) -> usize,
) -> (Vec<Tile>, Image, Vec<Dispatch>) {
    let mut sched = Scheduler::new(width, height, side, workers).unwrap();
    let mut image = Image::new(width as u32, height as u32, String::from("out.png"));
    let first = sched.initial_dispatches();
    let mut in_flight: Vec<(usize, Tile)> = Vec::new();
    let mut shutdowns: Vec<Dispatch> = Vec::new();
    for d in &first {
        match d.command {
            Command::Render(t) => in_flight.push((d.worker, t)),
            Command::Shutdown => shutdowns.push(*d),
        }
    }
    let mut stored = Vec::new();
    while !sched.is_finished() {
        let tiles: Vec<Tile> = in_flight.iter().map(|p| p.1).collect();
        let (worker, tile) = in_flight.remove(pick(&tiles));
        let shade = (stored.len() + 1) as u8;
        let result = TileResult { worker, tile, colors: block(side, shade) };
        let answer = sched.receive(&mut image, &result).unwrap();
        assert_eq!(answer.worker, worker);
        stored.push(tile);
        match answer.command {
            Command::Render(t) => in_flight.push((worker, t)),
            Command::Shutdown => shutdowns.push(answer),
        }
    }
    assert!(in_flight.is_empty());
    (stored, image, shutdowns)
}

fn first(_: &[Tile]) -> usize {
    0
}

fn last(t: &[Tile]) -> usize {
    t.len() - 1
}

#[test]
fn scheduler_partition_forty_by_forty() {
    let (stored, image, shutdowns) = run(40, 40, 20, 2, first);
    assert_eq!(stored.len(), 4);
    let mut writes = vec![0u32; 40 * 40];
    for t in &stored {
        for y in t.y * 20..t.y * 20 + 20 {
            for x in t.x * 20..t.x * 20 + 20 {
                writes[y * 40 + x] += 1;
            }
        }
    }
    assert_eq!(writes.len(), 1600);
    assert!(writes.iter().all(|n| *n == 1));
    for y in 0..40u32 {
        for x in 0..40u32 {
            assert_eq!(image.get_pixel(x, y)[3], 255);
        }
    }
    let mut stopped: Vec<usize> = shutdowns.iter().map(|d| d.worker).collect();
    stopped.sort();
    assert_eq!(stopped, vec![0, 1]);
}

#[test]
fn replayed_results_never_overlap() {
    for pick in [first as fn(&[Tile]) -> usize, last] {
        let (stored, _, _) = run(60, 40, 20, 4, pick);
        assert_eq!(stored.len(), 6);
        for i in 0..stored.len() {
            for j in i + 1..stored.len() {
                assert_ne!(stored[i], stored[j]);
            }
        }
    }
}

#[test]
fn stored_pixels_hold_the_reported_colors() {
    let (stored, image, _) = run(4, 2, 2, 1, first);
    assert_eq!(stored, vec![Tile { x: 0, y: 0 }, Tile { x: 1, y: 0 }]);
    assert_eq!(image.get_pixel(0, 0), [1, 0, 7, 255]);
    assert_eq!(image.get_pixel(1, 1), [1, 3, 7, 255]);
    assert_eq!(image.get_pixel(2, 0), [2, 0, 7, 255]);
    assert_eq!(image.get_pixel(3, 1), [2, 3, 7, 255]);
}

#[test]
fn priming_hands_out_first_tiles_in_order() {
    let sched = Scheduler::new(40, 40, 20, 3).unwrap();
    assert_eq!(sched.worker_count(), 3);
    let first = sched.initial_dispatches();
    assert_eq!(first.len(), 3);
    assert_eq!(first[0], Dispatch { worker: 0, command: Command::Render(Tile { x: 0, y: 0 }) });
    assert_eq!(first[1], Dispatch { worker: 1, command: Command::Render(Tile { x: 1, y: 0 }) });
    assert_eq!(first[2], Dispatch { worker: 2, command: Command::Render(Tile { x: 0, y: 1 }) });
    assert_eq!(sched.next_tile, 3);
}

#[test]
fn surplus_workers_are_stopped_at_once() {
    let sched = Scheduler::new(40, 20, 20, 5).unwrap();
    let first = sched.initial_dispatches();
    assert_eq!(first[1].command, Command::Render(Tile { x: 1, y: 0 }));
    for w in 2..5 {
        assert_eq!(first[w], Dispatch { worker: w, command: Command::Shutdown });
    }
}

#[test]
fn configuration_errors() {
    assert!(matches!(Scheduler::new(40, 40, 0, 2), Err(ConfigError::ZeroTileSide)));
    assert!(matches!(Scheduler::new(40, 30, 20, 2), Err(ConfigError::NotDivisible)));
    assert!(matches!(Scheduler::new(40, 40, 20, 0), Err(ConfigError::NoWorkers)));
}

#[test]
fn mismatched_reports_are_refused() {
    let mut sched = Scheduler::new(40, 40, 20, 1).unwrap();
    let mut image = Image::new(40, 40, String::from("out.png"));
    let good = Tile { x: 0, y: 0 };
    let unknown = TileResult { worker: 1, tile: good, colors: block(20, 1) };
    assert_eq!(sched.receive(&mut image, &unknown), Err(DispatchError::UnknownWorker));
    let wrong_tile = TileResult { worker: 0, tile: Tile { x: 1, y: 0 }, colors: block(20, 1) };
    assert_eq!(sched.receive(&mut image, &wrong_tile), Err(DispatchError::WrongTile));
    let wrong_size = TileResult { worker: 0, tile: good, colors: block(10, 1) };
    assert_eq!(sched.receive(&mut image, &wrong_size), Err(DispatchError::WrongSize));
    assert!(image.data.iter().all(|b| *b == 0));
    assert_eq!(sched.completed, 0);
    let ok = TileResult { worker: 0, tile: good, colors: block(20, 1) };
    let next = sched.receive(&mut image, &ok).unwrap();
    assert_eq!(next.command, Command::Render(Tile { x: 1, y: 0 }));
    let again = TileResult { worker: 0, tile: good, colors: block(20, 1) };
    assert_eq!(sched.receive(&mut image, &again), Err(DispatchError::WrongTile));
}

#[test]
fn idle_worker_report_is_refused() {
    let mut sched = Scheduler::new(20, 20, 20, 2).unwrap();
    let mut image = Image::new(20, 20, String::from("out.png"));
    let stray = TileResult { worker: 1, tile: Tile { x: 0, y: 0 }, colors: block(20, 1) };
    assert_eq!(sched.receive(&mut image, &stray), Err(DispatchError::NotRendering));
    let ok = TileResult { worker: 0, tile: Tile { x: 0, y: 0 }, colors: block(20, 1) };
    assert_eq!(
        sched.receive(&mut image, &ok),
        Ok(Dispatch { worker: 0, command: Command::Shutdown })
    );
    assert!(sched.is_finished());
}
