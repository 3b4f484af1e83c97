use std::cell::Cell;

use entity_engine::ecs::job_system::{self, JobResult, JobSystem, Pool};
use entity_engine::ecs::work_pool::{
    busiest, worker_step, Action, ClearOutcome, Event, PoolLeader, Spawner, State, Sweep,
    ToLeader, ToWorker, Worker,
};
use entity_engine::ecs::work_queue::{
    can_be_job, valid_length, wraparound_index, Job, PopStep, Queue,
};
use entity_engine::memory::allocator::DefaultAllocator;
use entity_engine::util::work_pool::queue;

#[test]
fn job_basics() {
    let mut i = 0;
    {
        let j = Job::new(|| i += 1);
        j.call();
    }
    assert_eq!(i, 1);
}

#[test]
fn queue_basics() {
    let i = Cell::new(0);
    {
        let mut jobs = Vec::new();
        let mut queue: Queue<usize, DefaultAllocator> = Queue::new(256, DefaultAllocator).unwrap();
        for n in 0..5 {
            jobs.push(Some(Job::new(|| i.set(i.get() + 1))));
            queue.push(n);
        }

        // no way these should fail.
        jobs[queue.pop().unwrap()].take().unwrap().call();
        for _ in 0..4 {
            jobs[queue.steal().unwrap()].take().unwrap().call();
        }

        assert!(queue.pop().is_none());
        assert!(queue.steal().is_none());
    }
    assert_eq!(i.get(), 5);
}

#[test]
fn jobs_have_a_limited_environment() {
    assert!(can_be_job::<[u64; 6]>());
    assert!(!can_be_job::<[u64; 8]>());
    assert!(!can_be_job::<u128>());
    assert!(job_system::can_be_job::<[u64; 6]>());
    assert!(!job_system::can_be_job::<[u64; 64]>());
}

#[test]
fn indices_wrap_around() {
    assert_eq!(wraparound_index(0, 8), 0);
    assert_eq!(wraparound_index(9, 8), 1);
    assert_eq!(wraparound_index(-1, 8), 7);
    assert_eq!(wraparound_index(-8, 8), 0);
    assert_eq!(wraparound_index(-9, 8), 7);
}

#[test]
fn lengths_are_powers_of_two() {
    assert!(valid_length::<usize>(256));
    assert!(!valid_length::<usize>(0));
    assert!(!valid_length::<usize>(100));
}

#[test]
fn the_last_job_goes_to_one_of_two() {
    let mut q: Queue<u32, DefaultAllocator> = Queue::new(4, DefaultAllocator).unwrap();
    q.push(7);
    assert_eq!(q.len(), 1);
    // a thief has looked at the job when the owner comes to take it.
    let ticket = q.begin_steal();
    let offer = q.look_steal(ticket).unwrap();
    let ticket = q.begin_pop();
    let race = match q.look_pop(ticket) {
        PopStep::Race(race) => race,
        _ => panic!("there is one job left"),
    };
    assert_eq!(q.finish_steal(offer), Some(7));
    assert_eq!(q.race_pop(race), None);
    assert_eq!(q.pop(), None);
    // now the owner comes first.
    q.push(8);
    let ticket = q.begin_steal();
    let offer = q.look_steal(ticket).unwrap();
    let ticket = q.begin_pop();
    let race = match q.look_pop(ticket) {
        PopStep::Race(race) => race,
        _ => panic!("there is one job left"),
    };
    assert_eq!(q.race_pop(race), Some(8));
    assert_eq!(q.finish_steal(offer), None);
    assert_eq!(q.steal(), None);
}

#[test]
fn a_work_queue_fills_up() {
    let mut q: Queue<u32, DefaultAllocator> = Queue::new(4, DefaultAllocator).unwrap();
    let mut n = 0;
    while q.can_push() {
        q.push(n);
        n += 1;
    }
    assert!(n >= 3 && n <= 4);
    for k in 0..n {
        assert_eq!(q.steal(), Some(k));
    }
    assert_eq!(q.steal(), None);
    assert!(q.can_push());
}

#[test]
fn job_system_creation_destruction() {
    for i in 0..32 {
        let (mut system, queues, start) = JobSystem::new::<usize, DefaultAllocator>(i, DefaultAllocator).unwrap();
        assert_eq!(start, ToWorker::Start);
        assert_eq!(queues.len(), i + 1);
        assert!(queues.iter().all(|q| q.len() == 0));
        assert_eq!(system.worker(i).queue, i);
        assert_eq!(system.begin_drop(), ToWorker::Clear);
        assert_eq!(system.finish_drop(&vec![Some(ToLeader::Cleared); i]), Ok(ToWorker::Shutdown));
    }
}

#[test]
fn mod_creation_destruction() {
    for i in 0..32 {
        let (mut pool, queues) = PoolLeader::new::<usize>(i);
        assert_eq!(queues.len(), i + 1);
        assert_eq!(pool.scope(), Some(ToWorker::Start));
        assert_eq!(pool.synchronize(), Some(ToWorker::Clear));
        assert_eq!(pool.finish_clear(&vec![Some(ToLeader::Cleared); i]), ClearOutcome::Cleared);
        assert_eq!(pool.shut_down(), ToWorker::Shutdown);
    }
}

// runs all jobs there are, as a pool of workers that take turns does.
fn run_all<F: FnOnce(Worker)>(workers: &[Worker], queues: &mut Vec<queue::Queue<F>>) -> usize {
    let mut done = 0;
    loop {
        let mut idle = true;
        for w in workers {
            if let Some(job) = w.pop_or_steal(queues) {
                job(*w);
                done += 1;
                idle = false;
            }
        }
        if idle {
            return done;
        }
    }
}

#[test]
fn split_work() {
    let mut v = vec![0; 1024];
    {
        let (mut pool, mut queues) = PoolLeader::new(4);
        assert_eq!(pool.scope(), Some(ToWorker::Start));
        let workers: Vec<Worker> = (0..5).map(|i| pool.worker(i)).collect();
        let mut spawner = Spawner::new(workers[0]);
        for (idx, v) in v.iter_mut().enumerate() {
            assert!(queues[0].can_push());
            spawner.execute(&mut queues[0], move |_: Worker| {
                *v += idx;
            });
        }
        assert!(!spawner.is_complete());
        for _ in 0..run_all(&workers, &mut queues) {
            spawner.job_done();
        }
        assert!(spawner.is_complete());
    }

    assert_eq!(v, (0..1024).collect::<Vec<_>>());
}

#[test]
fn multilevel_scoping() {
    let outer = Spawner::new(Worker { idx: 0 });
    let mut v = vec![0; 256];
    {
        let (mut pool, mut queues) = PoolLeader::new(4);
        assert_eq!(pool.scope(), Some(ToWorker::Start));
        let workers: Vec<Worker> = (0..5).map(|i| pool.worker(i)).collect();
        let mut inner = outer.scope();
        inner.execute(&mut queues[0], |_: Worker| {
            for i in &mut v {
                *i += 1
            }
        });
        for _ in 0..run_all(&workers, &mut queues) {
            inner.job_done();
        }
        // job is forcibly joined here.
        assert!(inner.is_complete());
    }
    assert_eq!(v, (0..256).map(|_| 1).collect::<Vec<_>>());
    assert!(outer.is_complete());
}

#[test]
fn workers_follow_their_messages() {
    let step = |s, m| worker_step(s, Event::Message(m));
    assert_eq!(step(State::Paused, ToWorker::Start), (State::Running, Action::Wait));
    assert_eq!(step(State::Running, ToWorker::Clear), (State::Paused, Action::Clear));
    assert_eq!(step(State::Paused, ToWorker::Shutdown), (State::Paused, Action::Stop));
    assert_eq!(step(State::Paused, ToWorker::Clear).1, Action::FailUnexpected);
    assert_eq!(step(State::Running, ToWorker::Start).1, Action::FailUnexpected);
    assert_eq!(step(State::Running, ToWorker::Shutdown).1, Action::FailUnexpected);
    assert_eq!(worker_step(State::Running, Event::Nothing), (State::Running, Action::RunNext));
    assert_eq!(worker_step(State::Paused, Event::Nothing), (State::Paused, Action::Wait));
    assert_eq!(worker_step(State::Running, Event::HungUp).1, Action::FailHungUp);
    assert_eq!(worker_step(State::Paused, Event::HungUp).1, Action::FailHungUp);
}

#[test]
fn failures_are_propagated() {
    let (mut pool, _) = PoolLeader::new::<usize>(2);
    assert_eq!(pool.synchronize(), None);
    assert_eq!(pool.scope(), Some(ToWorker::Start));
    assert_eq!(pool.scope(), None);
    assert_eq!(pool.synchronize(), Some(ToWorker::Clear));
    let replies = vec![Some(ToLeader::Cleared), Some(ToLeader::Panicked)];
    assert_eq!(pool.finish_clear(&replies), ClearOutcome::Panicked);
    let replies = vec![Some(ToLeader::Panicked), None];
    assert_eq!(pool.finish_clear(&replies), ClearOutcome::HungUp);
    let (mut system, _, _) = JobSystem::new::<usize, DefaultAllocator>(1, DefaultAllocator).unwrap();
    system.begin_drop();
    assert_eq!(system.finish_drop(&vec![None]), Err(ClearOutcome::HungUp));
}

#[test]
fn the_busiest_queue_is_stolen_from() {
    assert_eq!(busiest(&vec![3, 1, 5, 2], 0), Some(2));
    assert_eq!(busiest(&vec![9, 0, 0], 0), None);
    assert_eq!(busiest(&vec![1], 0), None);
    let mut queues: Vec<queue::Queue<u32>> = vec![queue::Queue::new(), queue::Queue::new()];
    queues[1].push(4);
    queues[1].push(5);
    let w = Worker { idx: 0 };
    assert_eq!(w.pop_or_steal(&mut queues), Some(4));
    queues[0].push(6);
    assert_eq!(w.pop_or_steal(&mut queues), Some(6));
    assert_eq!(w.pop_or_steal(&mut queues), Some(5));
    assert_eq!(w.pop_or_steal(&mut queues), None);
}

#[test]
fn a_sweep_empties_all_queues() {
    let mut queues: Vec<queue::Queue<u32>> =
        vec![queue::Queue::new(), queue::Queue::new(), queue::Queue::new()];
    queues[0].push(1);
    queues[2].push(2);
    queues[2].push(3);
    let mut sweep = Sweep::new();
    let mut found = Vec::new();
    while let Some(job) = sweep.next_job(Worker { idx: 0 }, &mut queues) {
        found.push(job);
    }
    found.sort();
    assert_eq!(found, vec![1, 2, 3]);
    assert!(queues.iter().all(|q| q.len() == 0));
}

#[test]
fn results_are_written_once_and_taken_once() {
    let mut results: Vec<JobResult<u32>> = vec![JobResult::new(), JobResult::new()];
    assert!(!results[1].is_done());
    assert_eq!(results[1].get(), None);
    let job = job_system::Job::new(|w: job_system::Worker| w.queue as u32 + 40, 1);
    job.call(job_system::Worker { queue: 2 }, &mut results);
    assert!(results[1].is_done());
    assert!(!results[0].is_done());
    assert_eq!(results[1].get(), Some(42));
    assert_eq!(results[1].get(), None);
}

#[test]
fn a_pool_of_jobs() {
    let mut pool: Pool<u32> = Pool::new();
    let a = pool.store(5);
    let b = pool.store(6);
    assert!(a != b);
    assert_eq!(pool.take(a), Some(5));
    assert_eq!(pool.take(a), None);
    assert_eq!(pool.take(b), Some(6));
    pool.reset();
    let mut n = 0;
    while pool.can_store() {
        pool.store(n);
        n += 1;
    }
    assert_eq!(n as usize, job_system::MAX_JOBS);
}

#[test]
fn workers_of_a_job_system_share_their_queues() {
    let (_, mut queues, _) = JobSystem::new::<u32, DefaultAllocator>(1, DefaultAllocator).unwrap();
    queues.index_mut(1).push(1);
    queues.index_mut(1).push(2);
    queues.index_mut(0).push(3);
    let w = job_system::Worker { queue: 0 };
    assert_eq!(w.get_job(&mut queues), Some(3));
    assert_eq!(w.get_job(&mut queues), Some(1));
    let mut sweep = Sweep::new();
    assert_eq!(w.clear_sweep(&mut sweep, &mut queues), Some(2));
    assert_eq!(w.clear_sweep(&mut sweep, &mut queues), None);
    assert!(!sweep.all_clear);
    let mut sweep = Sweep::new();
    assert_eq!(w.clear_sweep(&mut sweep, &mut queues), None);
    assert!(sweep.all_clear);
    assert_eq!(w.get_job(&mut queues), None);
}
