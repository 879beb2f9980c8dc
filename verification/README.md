# stallwatch

Names the unit that is stalling a Linux system, and explains why.

The kernel's pressure files say that something is blocked; they do not say who
made it wait. stallwatch samples every cgroup, decides which of them answers for
a stall and which was moving data meanwhile, and says so in a sentence. A daemon
records stalls while they happen, because a freeze is over by the time anyone
can type.

- `src/` is the library, written in Verus. It takes what the kernel's files hold
  as text and numbers and decides everything from there; each function states
  what it returns, and Verus proves it. Percentages and byte counts are computed
  in double precision by `float`, which is proved to round as IEEE 754 does.
- `app/` is the two programs around it: `stallwatch` asks, `stallwatchd`
  records. It reads `/proc` and `/sys`, waits on triggers and serves sockets.
- `tests/` runs the library on real lines and on the corners.

What holds across functions stands as public lemmas beside them: that a line of
the incident log reads back as what was written (`readback`), that both JSON
renderings of a report are one document and that every refusal parses
(`replies`), that two notices are a cooldown apart (`notify`), that a parent
yields to the child that dominates it (`attribution`), that whoever moved data
is answered for (`causes`), that a filter made of filters matches as its parts do
(`combine`), that what a configuration file holds and is not understood is
reported (`config`).
