# timestamp_lanes

Casts a whole column of RFC 3339 timestamp strings to nanoseconds since 1970-01-01T00:00:00Z,
sixteen strings at a time. A column is cast only if no row is null, all rows have one supported
layout (`T` or a space between date and time, 0, 3, 6 or 9 fractional digits, `Z` after `T`
optional) and every row is a real date in the years 1678 to 2261; otherwise the cast declines and
the caller uses a general parser.

- `calendar`: dates, their validity and their day and nanosecond counts
- `format`: layouts as data, and which layout a sample has
- `record`, `text`: what one record means, the scalar parser, and how an instant is written
- `lanes`: the operations of vector registers, on arrays of sixteen bytes
- `engine`: rows, blocks and the scalar work that the kernels share
- `neon`, `avx2`: the two kernels, proved to have the same outcome
- `column`, `arrays`: columns of strings, Arrow arrays, and the cast
- `laws`: what holds of the cast as a whole

The kernels are portable code. They move and combine bytes in the order in which the NEON and AVX2
instructions would, but use no vector instructions themselves; any of them runs on any machine.

Everything under `src/` is verified with Verus. What is taken on trust is in `arrays`: the calls
into `arrow-array`. `app/` picks the kernel of the machine and hands Arrow arrays of either
offset width to the cast.
